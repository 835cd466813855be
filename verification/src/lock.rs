//! Pinned component revisions.
//!
//! A lock document has one section per component, opened by the component's
//! name in square brackets, with the revision quoted on a line of its own.

use vstd::prelude::*;

verus! {

/// A character with the Unicode `White_Space` property.
pub open spec fn white_space(c: char) -> bool {
    let code = c as u32;
    ||| 0x09 <= code <= 0x0d
    ||| code == 0x20
    ||| code == 0x85
    ||| code == 0xa0
    ||| code == 0x1680
    ||| 0x2000 <= code <= 0x200a
    ||| code == 0x2028
    ||| code == 0x2029
    ||| code == 0x202f
    ||| code == 0x205f
    ||| code == 0x3000
}

/// The pattern stands at the place.
pub open spec fn stands(text: Seq<char>, at: int, pattern: Seq<char>) -> bool {
    0 <= at && at + pattern.len() <= text.len() && text.subrange(at, at + pattern.len()) == pattern
}

/// The first place from `from` on where the pattern stands, or the end.
pub open spec fn first_place(text: Seq<char>, from: int, pattern: Seq<char>) -> int
    decreases text.len() - from,
{
    if from >= text.len() || stands(text, from, pattern) {
        from
    } else {
        first_place(text, from + 1, pattern)
    }
}

/// The first place from `from` on that holds no white space, or the end.
pub open spec fn first_visible(text: Seq<char>, from: int) -> int
    decreases text.len() - from,
{
    if from >= text.len() || !white_space(text[from]) {
        from
    } else {
        first_visible(text, from + 1)
    }
}

/// A component's section: from behind its header up to the next header of the
/// same name, or to the end.
pub open spec fn section_of(document: Seq<char>, header: Seq<char>) -> Option<Seq<char>> {
    let at = first_place(document, 0, header);
    if at >= document.len() {
        None
    } else {
        let start = at + header.len();
        Some(document.subrange(start, first_place(document, start, header)))
    }
}

/// Whether the line from `start` on opens with the revision key, after any
/// white space within it.
pub open spec fn names_revision(section: Seq<char>, start: int, end: int) -> bool {
    let line = section.subrange(start, end);
    stands(line, first_visible(line, 0), "revision ="@)
}

/// Where the text of a line ends: before its line feed, and before a carriage
/// return in front of that.
pub open spec fn text_end(section: Seq<char>, start: int, end: int) -> int {
    if end < section.len() && end > start && section[end - 1] == '\r' {
        end - 1
    } else {
        end
    }
}

/// The first line from `start` on that names a revision, as its bounds.
pub open spec fn revision_line(section: Seq<char>, start: int) -> Option<(int, int)>
    decreases section.len() - start,
    via revision_line_decreases
{
    if start < 0 || start >= section.len() {
        None
    } else {
        let end = first_place(section, start, seq!['\n']);
        if names_revision(section, start, text_end(section, start, end)) {
            Some((start, text_end(section, start, end)))
        } else if end >= section.len() {
            None
        } else {
            revision_line(section, end + 1)
        }
    }
}

#[via_fn]
proof fn revision_line_decreases(section: Seq<char>, start: int) {
    if 0 <= start < section.len() {
        lemma_first_place(section, start, seq!['\n']);
    }
}

/// The text between the first quote of a line and the next one, or the end of
/// the line.
pub open spec fn quoted(line: Seq<char>) -> Option<Seq<char>> {
    let open = first_place(line, 0, seq!['"']);
    if open >= line.len() {
        None
    } else {
        Some(line.subrange(open + 1, first_place(line, open + 1, seq!['"'])))
    }
}

/// Where a search ends.
proof fn lemma_first_place(text: Seq<char>, from: int, pattern: Seq<char>)
    requires
        0 <= from <= text.len(),
    ensures
        from <= first_place(text, from, pattern) <= text.len(),
        first_place(text, from, pattern) < text.len() ==> stands(
            text,
            first_place(text, from, pattern),
            pattern,
        ),
    decreases text.len() - from,
{
    if from < text.len() && !stands(text, from, pattern) {
        lemma_first_place(text, from + 1, pattern);
    }
}

/// What is wrong with a lock document.
#[derive(Debug, Clone, Copy, PartialEq, Eq, Structural)]
pub enum LockProblem {
    MissingSection,
    MissingRevision,
    InvalidRevision,
}

impl LockProblem {
    /// The human-readable reason for a component.
    pub fn message(&self, section: &str) -> (reason: String)
        ensures
            reason@ == (match self {
                LockProblem::MissingSection => "missing ["@ + section@ + "] in vestra.lock.toml"@,
                LockProblem::MissingRevision => "missing revision for "@ + section@,
                LockProblem::InvalidRevision => "invalid revision for "@ + section@,
            }),
    {
        match self {
            LockProblem::MissingSection => {
                let mut reason: String = "missing [".to_owned();
                reason.append(section);
                reason.append("] in vestra.lock.toml");
                reason
            },
            LockProblem::MissingRevision => {
                let mut reason: String = "missing revision for ".to_owned();
                reason.append(section);
                reason
            },
            LockProblem::InvalidRevision => {
                let mut reason: String = "invalid revision for ".to_owned();
                reason.append(section);
                reason
            },
        }
    }
}

/// The header of a component's section.
pub open spec fn header_of(section: Seq<char>) -> Seq<char> {
    "["@ + section + "]"@
}

/// The pinned revision of a component, or what is wrong with the document.
pub open spec fn revision_of(document: Seq<char>, section: Seq<char>) -> Result<
    Seq<char>,
    LockProblem,
> {
    match section_of(document, header_of(section)) {
        None => Err(LockProblem::MissingSection),
        Some(body) => match revision_line(body, 0) {
            None => Err(LockProblem::MissingRevision),
            Some((start, end)) => match quoted(body.subrange(start, end)) {
                None => Err(LockProblem::InvalidRevision),
                Some(revision) => Ok(revision),
            },
        },
    }
}

/// The characters of a text.
fn characters(text: &str) -> (list: Vec<char>)
    ensures
        list@ == text@,
{
    let mut list: Vec<char> = Vec::new();
    let count: usize = vstd::string::StrSliceExecFns::unicode_len(text);
    for i in 0..count
        invariant
            count == text@.len(),
            list@ == text@.take(i as int),
    {
        list.push(vstd::string::StrSliceExecFns::get_char(text, i));
        assert(list@ =~= text@.take(i + 1));
    }
    assert(list@ =~= text@);
    list
}

fn stands_at(text: &Vec<char>, at: usize, end: usize, pattern: &Vec<char>) -> (answer: bool)
    requires
        at <= end <= text@.len(),
    ensures
        answer == stands(text@.take(end as int), at as int, pattern@),
{
    let ghost part = text@.take(end as int);
    if end - at < pattern.len() {
        return false;
    }
    for i in 0..pattern.len()
        invariant
            part == text@.take(end as int),
            at + pattern@.len() <= end <= text@.len(),
            forall|j: int| 0 <= j < i ==> text@[at + j] == #[trigger] pattern@[j],
    {
        if text[at + i] != pattern[i] {
            assert(part.subrange(at as int, at + pattern@.len())[i as int] != pattern@[i as int]);
            return false;
        }
    }
    assert(part.subrange(at as int, at + pattern@.len()) =~= pattern@);
    true
}

fn find(text: &Vec<char>, from: usize, end: usize, pattern: &Vec<char>) -> (place: usize)
    requires
        from <= end <= text@.len(),
    ensures
        from <= place <= end,
        place == first_place(text@.take(end as int), from as int, pattern@),
{
    let mut at: usize = from;
    while at < end
        invariant
            from <= at <= end <= text@.len(),
            first_place(text@.take(end as int), from as int, pattern@) == first_place(
                text@.take(end as int),
                at as int,
                pattern@,
            ),
        decreases end - at,
    {
        if stands_at(text, at, end, pattern) {
            return at;
        }
        at = at + 1;
    }
    at
}

fn is_white_space(c: char) -> (answer: bool)
    ensures
        answer == white_space(c),
{
    let code: u32 = c as u32;
    (0x09 <= code && code <= 0x0d) || code == 0x20 || code == 0x85 || code == 0xa0 || code
        == 0x1680 || (0x2000 <= code && code <= 0x200a) || code == 0x2028 || code == 0x2029
        || code == 0x202f || code == 0x205f || code == 0x3000
}

fn copy_range(text: &Vec<char>, from: usize, to: usize) -> (part: Vec<char>)
    requires
        from <= to <= text@.len(),
    ensures
        part@ == text@.subrange(from as int, to as int),
{
    let mut part: Vec<char> = Vec::new();
    for i in from..to
        invariant
            from <= i <= to <= text@.len(),
            part@ == text@.subrange(from as int, i as int),
    {
        part.push(text[i]);
        assert(part@ =~= text@.subrange(from as int, i + 1));
    }
    part
}

fn opens_with_revision(line: &Vec<char>) -> (answer: bool)
    ensures
        answer == stands(line@, first_visible(line@, 0), "revision ="@),
{
    let mut at: usize = 0;
    while at < line.len() && is_white_space(line[at])
        invariant
            at <= line@.len(),
            first_visible(line@, 0) == first_visible(line@, at as int),
        decreases line@.len() - at,
    {
        at = at + 1;
    }
    let key: Vec<char> = characters("revision =");
    assert(line@.take(line@.len() as int) =~= line@);
    stands_at(line, at, line.len(), &key)
}

fn find_revision_line(section: &Vec<char>) -> (line: Option<(usize, usize)>)
    ensures
        match revision_line(section@, 0) {
            Some((start, end)) => line matches Some(found) && found.0 == start && found.1 == end
                && start <= end <= section@.len(),
            None => line is None,
        },
{
    let mut feed: Vec<char> = Vec::new();
    feed.push('\n');
    assert(feed@ =~= seq!['\n']);
    let mut start: usize = 0;
    while start < section.len()
        invariant
            feed@ == seq!['\n'],
            revision_line(section@, 0) == revision_line(section@, start as int),
        decreases section@.len() - start,
    {
        let end: usize = find(section, start, section.len(), &feed);
        assert(section@.take(section@.len() as int) =~= section@);
        let stop: usize = if end < section.len() && end > start && section[end - 1] == '\r' {
            end - 1
        } else {
            end
        };
        let line: Vec<char> = copy_range(section, start, stop);
        if opens_with_revision(&line) {
            return Some((start, stop));
        }
        if end == section.len() {
            return None;
        }
        start = end + 1;
    }
    None
}

/// The pinned revision of a component.
pub fn locked_revision(document: &str, section: &str) -> (result: Result<String, LockProblem>)
    ensures
        match revision_of(document@, section@) {
            Ok(revision) => result matches Ok(found) && found@ == revision,
            Err(problem) => result == Err::<String, LockProblem>(problem),
        },
{
    let mut header_text: String = "[".to_owned();
    header_text.append(section);
    header_text.append("]");
    let header: Vec<char> = characters(header_text.as_str());
    let all: Vec<char> = characters(document);
    assert(all@.take(all@.len() as int) =~= all@);
    let at: usize = find(&all, 0, all.len(), &header);
    proof {
        lemma_first_place(all@, 0, header@);
    }
    if at == all.len() {
        return Err(LockProblem::MissingSection);
    }
    let start: usize = at + header.len();
    let end: usize = find(&all, start, all.len(), &header);
    let body: Vec<char> = copy_range(&all, start, end);
    let (first, last): (usize, usize) = match find_revision_line(&body) {
        Some(line) => line,
        None => return Err(LockProblem::MissingRevision),
    };
    let line: Vec<char> = copy_range(&body, first, last);
    let mut quote: Vec<char> = Vec::new();
    quote.push('"');
    assert(quote@ =~= seq!['"']);
    assert(line@.take(line@.len() as int) =~= line@);
    let open: usize = find(&line, 0, line.len(), &quote);
    if open == line.len() {
        return Err(LockProblem::InvalidRevision);
    }
    let close: usize = find(&line, open + 1, line.len(), &quote);
    let from: usize = start + first + open + 1;
    let to: usize = start + first + close;
    let revision: &str = vstd::string::StrSliceExecFns::substring_char(document, from, to);
    assert(revision@ =~= line@.subrange(open + 1, close as int));
    Ok(revision.to_owned())
}

proof fn lemma_nothing_before(text: Seq<char>, from: int, pattern: Seq<char>)
    requires
        0 <= from <= text.len(),
    ensures
        forall|i: int|
            from <= i < first_place(text, from, pattern) ==> !#[trigger] stands(text, i, pattern),
    decreases text.len() - from,
{
    if from < text.len() && !stands(text, from, pattern) {
        lemma_nothing_before(text, from + 1, pattern);
    }
}

/// A section begins behind the first place where its header stands, and ends where the
/// header stands again, or with the document. Without the header there is none.
pub proof fn law_section_follows_its_header(document: Seq<char>, header: Seq<char>)
    requires
        header.len() > 0,
    ensures
        match section_of(document, header) {
            None => forall|i: int| !#[trigger] stands(document, i, header),
            Some(body) => exists|at: int|
                {
                    let start = at + header.len();
                    let end = start + body.len();
                    &&& #[trigger] stands(document, at, header)
                    &&& forall|i: int| i < at ==> !#[trigger] stands(document, i, header)
                    &&& end <= document.len()
                    &&& body == document.subrange(start, end)
                    &&& end == document.len() || stands(document, end, header)
                    &&& forall|i: int|
                        start <= i < end ==> !#[trigger] stands(document, i, header)
                },
        },
{
    lemma_first_place(document, 0, header);
    lemma_nothing_before(document, 0, header);
    let at = first_place(document, 0, header);
    if at < document.len() {
        let start = at + header.len();
        lemma_first_place(document, start as int, header);
        lemma_nothing_before(document, start as int, header);
        assert(stands(document, at, header));
    }
}

/// A quoted text stands behind the first quotation mark of a line, and ends before the
/// next one, or with the line. Without a mark there is none.
pub proof fn law_quoted_text_stands_between_marks(line: Seq<char>)
    ensures
        match quoted(line) {
            None => !line.contains('"'),
            Some(inner) => exists|open: int|
                {
                    let end = open + 1 + inner.len();
                    &&& 0 <= open < line.len()
                    &&& #[trigger] line[open] == '"'
                    &&& forall|i: int| 0 <= i < open ==> #[trigger] line[i] != '"'
                    &&& end <= line.len()
                    &&& inner == line.subrange(open + 1, end)
                    &&& end == line.len() || line[end] == '"'
                    &&& !inner.contains('"')
                },
        },
{
    let mark = seq!['"'];
    assert forall|i: int| 0 <= i < line.len() implies (#[trigger] stands(line, i, mark) <==> line[i]
        == '"') by {
        if line[i] == '"' {
            assert(line.subrange(i, i + 1) =~= mark);
        } else if stands(line, i, mark) {
            assert(line.subrange(i, i + 1)[0] == mark[0]);
        }
    }
    lemma_first_place(line, 0, mark);
    lemma_nothing_before(line, 0, mark);
    let open = first_place(line, 0, mark);
    assert forall|i: int| 0 <= i < open implies #[trigger] line[i] != '"' by {
        assert(!stands(line, i, mark));
    }
    if open < line.len() {
        lemma_first_place(line, open + 1, mark);
        lemma_nothing_before(line, open + 1, mark);
        let end = first_place(line, open + 1, mark);
        let inner = line.subrange(open + 1, end);
        assert forall|i: int| 0 <= i < inner.len() implies #[trigger] inner[i] != '"' by {
            assert(!stands(line, open + 1 + i, mark));
        }
        assert(line[open] == '"');
    }
}

/// The place where a line begins.
pub open spec fn begins_line(section: Seq<char>, start: int, at: int) -> bool {
    start <= at < section.len() && (at == start || section[at - 1] == '\n')
}

/// Behind white space, `revision =` stands on a line that begins at `at`: nothing but
/// white space is before it, and no line feed.
pub open spec fn revision_stands(section: Seq<char>, at: int, place: int) -> bool {
    &&& at <= place
    &&& stands(section, place, "revision ="@)
    &&& forall|i: int|
        at <= i < place ==> white_space(#[trigger] section[i]) && section[i] != '\n'
}

proof fn lemma_visible(text: Seq<char>, from: int)
    requires
        0 <= from <= text.len(),
    ensures
        from <= first_visible(text, from) <= text.len(),
        first_visible(text, from) < text.len() ==> !white_space(text[first_visible(text, from)]),
        forall|i: int|
            from <= i < first_visible(text, from) ==> white_space(#[trigger] text[i]),
    decreases text.len() - from,
{
    if from < text.len() && white_space(text[from]) {
        lemma_visible(text, from + 1);
    }
}

proof fn lemma_line_end(section: Seq<char>, start: int)
    requires
        0 <= start < section.len(),
    ensures
        ({
            let end = first_place(section, start, seq!['\n']);
            &&& start <= end <= section.len()
            &&& end < section.len() ==> section[end] == '\n'
            &&& forall|i: int| start <= i < end ==> #[trigger] section[i] != '\n'
        }),
{
    let feed = seq!['\n'];
    let end = first_place(section, start, feed);
    lemma_first_place(section, start, feed);
    lemma_nothing_before(section, start, feed);
    if end < section.len() {
        assert(section.subrange(end, end + 1)[0] == feed[0]);
    }
    assert forall|i: int| start <= i < end implies #[trigger] section[i] != '\n' by {
        assert(!stands(section, i, feed));
        if section[i] == '\n' {
            assert(section.subrange(i, i + 1) =~= feed);
        }
    }
}

proof fn lemma_named(section: Seq<char>, start: int, end: int, stop: int)
    requires
        0 <= start <= stop <= end <= section.len(),
        forall|i: int| start <= i < end ==> #[trigger] section[i] != '\n',
        names_revision(section, start, stop),
    ensures
        exists|place: int| #[trigger] revision_stands(section, start, place),
{
    let line = section.subrange(start, stop);
    let word = "revision ="@;
    lemma_visible(line, 0);
    let visible = first_visible(line, 0);
    let place = start + visible;
    assert(line.subrange(visible, visible + word.len()) =~= section.subrange(
        place,
        place + word.len(),
    ));
    assert forall|i: int| start <= i < place implies white_space(#[trigger] section[i])
        && section[i] != '\n' by {
        assert(line[i - start] == section[i]);
    }
    assert(revision_stands(section, start, place));
}

proof fn lemma_word_stands(section: Seq<char>, place: int)
    requires
        stands(section, place, "revision ="@),
    ensures
        "revision ="@.len() == 10,
        place + 10 <= section.len(),
        section[place] == 'r',
        section[place + 9] == '=',
        forall|i: int| place <= i < place + 10 ==> #[trigger] section[i] != '\n',
{
    reveal_strlit("revision =");
    let word = "revision ="@;
    let found = section.subrange(place, place + word.len());
    assert(found == word);
    assert forall|i: int| place <= i < place + 10 implies #[trigger] section[i] != '\n' by {
        assert(section[i] == found[i - place]);
    }
    assert(found[0] == section[place]);
    assert(found[9] == section[place + 9]);
}

proof fn lemma_naming(section: Seq<char>, start: int, end: int, place: int)
    requires
        0 <= start <= end <= section.len(),
        end < section.len() ==> section[end] == '\n',
        revision_stands(section, start, place),
    ensures
        names_revision(section, start, text_end(section, start, end)),
{
    lemma_word_stands(section, place);
    let stop = text_end(section, start, end);
    let line = section.subrange(start, stop);
    let word = "revision ="@;
    if end < place {
        assert(section[end] != '\n');
    }
    assert(place + 10 <= end);
    assert(place + 10 <= stop);
    lemma_visible(line, 0);
    let visible = first_visible(line, 0);
    assert(line[place - start] == section[place]);
    assert(!white_space('r'));
    if visible < place - start {
        assert(line[visible] == section[start + visible]);
    }
    assert(visible == place - start);
    assert(line.subrange(visible, visible + word.len()) =~= section.subrange(
        place,
        place + word.len(),
    ));
}

proof fn lemma_names(section: Seq<char>, start: int)
    requires
        0 <= start < section.len(),
    ensures
        ({
            let end = first_place(section, start, seq!['\n']);
            &&& start <= end <= section.len()
            &&& end < section.len() ==> section[end] == '\n'
            &&& forall|i: int| start <= i < end ==> #[trigger] section[i] != '\n'
            &&& names_revision(section, start, text_end(section, start, end)) <==> exists|
                place: int,
            | #[trigger] revision_stands(section, start, place)
        }),
{
    let end = first_place(section, start, seq!['\n']);
    lemma_line_end(section, start);
    if names_revision(section, start, text_end(section, start, end)) {
        lemma_named(section, start, end, text_end(section, start, end));
    }
    if exists|place: int| #[trigger] revision_stands(section, start, place) {
        let place = choose|place: int| #[trigger] revision_stands(section, start, place);
        lemma_naming(section, start, end, place);
    }
}

/// The line from `at` to `end` is the first one from `start` on that names a revision. It
/// ends before its line feed, and before a carriage return in front of that.
pub open spec fn is_first_revision(section: Seq<char>, start: int, at: int, end: int) -> bool {
    &&& begins_line(section, start, at)
    &&& exists|place: int| #[trigger] revision_stands(section, at, place)
    &&& forall|other: int, place: int|
        begins_line(section, start, other) && other < at ==> !#[trigger] revision_stands(
            section,
            other,
            place,
        )
    &&& at <= end <= section.len()
    &&& forall|i: int| at <= i < end ==> #[trigger] section[i] != '\n'
    &&& end == section.len() || section[end] == '\n' || (end + 1 < section.len() && section[end]
        == '\r' && section[end + 1] == '\n')
}

/// No line from `start` on names a revision.
pub open spec fn no_revision(section: Seq<char>, start: int) -> bool {
    forall|at: int, place: int|
        begins_line(section, start, at) ==> !#[trigger] revision_stands(section, at, place)
}

/// The revision is on the first line that has `revision =` behind nothing but white
/// space; where no line has it, none is found.
pub proof fn law_revision_is_on_the_first_line_that_names_it(section: Seq<char>, start: int)
    requires
        0 <= start,
    ensures
        revision_line(section, start) is None ==> no_revision(section, start),
        revision_line(section, start) matches Some((at, end)) ==> is_first_revision(
            section,
            start,
            at,
            end,
        ),
    decreases section.len() - start,
{
    if start < section.len() {
        lemma_names(section, start);
        let end = first_place(section, start, seq!['\n']);
        let stop = text_end(section, start, end);
        assert forall|at: int| #[trigger]
            begins_line(section, start, at) && at != start implies at > end by {
            if at <= end {
                assert(section[at - 1] != '\n');
            }
        }
        assert(start <= stop <= end) by {
            if stop != end {
                assert(stop == end - 1);
            }
        }
        if names_revision(section, start, stop) {
            assert(revision_line(section, start) == Some((start, stop)));
            assert(begins_line(section, start, start));
            assert(is_first_revision(section, start, start, stop));
        } else if end < section.len() {
            assert(revision_line(section, start) == revision_line(section, end + 1));
            law_revision_is_on_the_first_line_that_names_it(section, end + 1);
            assert forall|at: int| #[trigger]
                begins_line(section, start, at) && at != start implies begins_line(
                section,
                end + 1,
                at,
            ) by {}
            if let Some((at, close)) = revision_line(section, end + 1) {
                assert(begins_line(section, end + 1, at));
                assert(begins_line(section, start, at));
                assert(is_first_revision(section, start, at, close));
            } else {
                assert(no_revision(section, start));
            }
        } else {
            assert(revision_line(section, start) is None);
            assert(no_revision(section, start));
        }
    }
}

/// A text stands in a document behind a quotation mark, and that behind a header.
pub open spec fn quoted_behind(
    document: Seq<char>,
    header: Seq<char>,
    revision: Seq<char>,
    at: int,
    place: int,
) -> bool {
    &&& stands(document, at, header)
    &&& at + header.len() < place
    &&& document[place - 1] == '"'
    &&& stands(document, place, revision)
    &&& !revision.contains('"')
}

/// The revision of a section is a quoted part of the document, somewhere behind the first
/// place where the name of the section stands in brackets. Without that place the section
/// is missing.
pub proof fn law_revision_is_quoted_in_its_section(
    document: Seq<char>,
    section: Seq<char>,
    header: Seq<char>,
)
    requires
        header == seq!['['] + section + seq![']'],
    ensures
        revision_of(document, section) == Err::<Seq<char>, LockProblem>(
            LockProblem::MissingSection,
        ) <==> section_of(document, header) is None,
        revision_of(document, section) matches Ok(revision) ==> exists|at: int, place: int|
            #[trigger]
            quoted_behind(document, header, revision, at, place),
{
    reveal_strlit("[");
    reveal_strlit("]");
    assert("["@ =~= seq!['[']);
    assert("]"@ =~= seq![']']);
    assert(header_of(section) =~= header);
    if let Ok(revision) = revision_of(document, section) {
        let body = section_of(document, header)->0;
        lemma_first_place(document, 0, header);
        let at = first_place(document, 0, header);
        let start = at + header.len();
        lemma_first_place(document, start as int, header);
        law_revision_is_on_the_first_line_that_names_it(body, 0);
        let (from, to) = revision_line(body, 0)->0;
        assert(is_first_revision(body, 0, from, to));
        let line = body.subrange(from, to);
        law_quoted_text_stands_between_marks(line);
        lemma_first_place(line, 0, seq!['"']);
        let open = first_place(line, 0, seq!['"']);
        lemma_first_place(line, open + 1, seq!['"']);
        assert(line.subrange(open, open + 1)[0] == '"');
        let place = start + from + open + 1;
        assert(document[place - 1] == line[open]);
        assert(document.subrange(place, place + revision.len()) =~= revision);
        assert(quoted_behind(document, header, revision, at, place));
    }
}

} // verus!
