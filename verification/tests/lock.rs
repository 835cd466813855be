use vestra::lock::{locked_revision, LockProblem};

const LOCK: &str = "# compatible components\n[engine]\nrepository = \"vestra-engine\"\nrevision = \"0123456789abcdef0123456789abcdef01234567\"\n\n[kernels]\nrepository = \"vestra-kernels\"\n  revision = \"fedcba9876543210fedcba9876543210fedcba98\"\n";

#[test]
fn implementation_lock_parser_extracts_pinned_component_revisions() {
    assert_eq!(locked_revision(LOCK, "engine").unwrap().len(), 40);
    assert_eq!(locked_revision(LOCK, "kernels").unwrap().len(), 40);
}

#[test]
fn main_lock_parser_extracts_pinned_component_revisions() {
    assert_eq!(locked_revision(LOCK, "engine").unwrap().len(), 40);
    assert_eq!(locked_revision(LOCK, "kernels").unwrap().len(), 40);
}

#[test]
fn the_revision_is_the_quoted_text_of_its_own_section() {
    assert_eq!(
        locked_revision(LOCK, "engine").unwrap(),
        "0123456789abcdef0123456789abcdef01234567"
    );
    assert_eq!(
        locked_revision(LOCK, "kernels").unwrap(),
        "fedcba9876543210fedcba9876543210fedcba98"
    );
}

#[test]
fn lock_problems_name_what_is_missing() {
    assert_eq!(
        locked_revision(LOCK, "studio"),
        Err(LockProblem::MissingSection)
    );
    assert_eq!(
        locked_revision("[engine]\nname = \"x\"\n", "engine"),
        Err(LockProblem::MissingRevision)
    );
    assert_eq!(
        locked_revision("[engine]\nrevision = none\n", "engine"),
        Err(LockProblem::InvalidRevision)
    );
    assert_eq!(
        LockProblem::MissingSection.message("studio"),
        "missing [studio] in vestra.lock.toml"
    );
    assert_eq!(
        LockProblem::MissingRevision.message("engine"),
        "missing revision for engine"
    );
    assert_eq!(
        LockProblem::InvalidRevision.message("engine"),
        "invalid revision for engine"
    );
}

#[test]
fn an_unterminated_quote_runs_to_the_end_of_its_line() {
    assert_eq!(
        locked_revision("[engine]\r\n\u{2003}revision = \"abc\r\nnext", "engine").unwrap(),
        "abc"
    );
}
