//! Little-endian interchange primitives: where a value stands in a byte
//! sequence, and a reader and writers that are held to that.

use vstd::prelude::*;

verus! {

/// The unsigned 32-bit value whose four bytes start at `at`, lowest first.
pub open spec fn u32_at(bytes: Seq<u8>, at: int) -> u32 {
    (bytes[at] + bytes[at + 1] * 0x100 + bytes[at + 2] * 0x1_0000 + bytes[at + 3]
        * 0x100_0000) as u32
}

/// The unsigned 64-bit value whose eight bytes start at `at`, lowest first.
pub open spec fn u64_at(bytes: Seq<u8>, at: int) -> u64 {
    (u32_at(bytes, at) + u32_at(bytes, at + 4) * 0x1_0000_0000) as u64
}

/// The two's-complement reading of a 32-bit pattern.
pub open spec fn i32_of(bits: u32) -> i32 {
    if bits < 0x8000_0000 {
        bits as i32
    } else {
        (bits - 0x1_0000_0000) as i32
    }
}

/// `count` consecutive unsigned 32-bit values.
pub open spec fn u32s_at(bytes: Seq<u8>, at: int, count: int) -> Seq<u32> {
    Seq::new(count as nat, |i: int| u32_at(bytes, at + 4 * i))
}

/// `count` consecutive signed 32-bit values.
pub open spec fn i32s_at(bytes: Seq<u8>, at: int, count: int) -> Seq<i32> {
    Seq::new(count as nat, |i: int| i32_of(u32_at(bytes, at + 4 * i)))
}

/// Byte `place` (0 to 3) of an unsigned 32-bit value.
pub open spec fn u32_byte(value: u32, place: int) -> u8 {
    if place == 0 {
        (value % 0x100) as u8
    } else if place == 1 {
        (value / 0x100 % 0x100) as u8
    } else if place == 2 {
        (value / 0x1_0000 % 0x100) as u8
    } else {
        (value / 0x100_0000) as u8
    }
}

/// The four bytes of an unsigned 32-bit value, lowest first.
pub open spec fn u32_bytes(value: u32) -> Seq<u8> {
    Seq::new(4, |i: int| u32_byte(value, i))
}

/// The eight bytes of an unsigned 64-bit value, lowest first.
pub open spec fn u64_bytes(value: u64) -> Seq<u8> {
    u32_bytes((value % 0x1_0000_0000) as u32) + u32_bytes((value / 0x1_0000_0000) as u32)
}

/// The bytes of consecutive unsigned 32-bit values.
pub open spec fn u32s_bytes(values: Seq<u32>) -> Seq<u8> {
    Seq::new(4 * values.len(), |i: int| u32_byte(values[i / 4], i % 4))
}

/// The value at a place depends on nothing but its four bytes.
pub proof fn lemma_u32_at_frame(a: Seq<u8>, at: int, b: Seq<u8>, other: int)
    requires
        forall|i: int| 0 <= i < 4 ==> a[at + i] == #[trigger] b[other + i],
    ensures
        u32_at(a, at) == u32_at(b, other),
{
    assert(a[at + 0] == b[other + 0]);
    assert(a[at + 1] == b[other + 1]);
    assert(a[at + 2] == b[other + 2]);
    assert(a[at + 3] == b[other + 3]);
}

/// Reading back the four bytes of a value gives the value.
pub proof fn lemma_u32_round_trip(value: u32)
    ensures
        u32_at(u32_bytes(value), 0) == value,
{
    let b = u32_bytes(value);
    assert(b[0] == value % 0x100);
    assert(b[1] == value / 0x100 % 0x100);
    assert(b[2] == value / 0x1_0000 % 0x100);
    assert(b[3] == value / 0x100_0000);
}

/// A value whose four bytes stand at a place is read from that place.
pub proof fn lemma_u32_placed(bytes: Seq<u8>, at: int, value: u32)
    requires
        0 <= at,
        at + 4 <= bytes.len(),
        bytes.subrange(at, at + 4) == u32_bytes(value),
    ensures
        u32_at(bytes, at) == value,
{
    let placed = bytes.subrange(at, at + 4);
    lemma_u32_round_trip(value);
    assert forall|i: int| 0 <= i < 4 implies bytes[at + i] == #[trigger] placed[0 + i] by {}
    lemma_u32_at_frame(bytes, at, placed, 0);
}

/// A value whose eight bytes stand at a place is read from that place.
pub proof fn lemma_u64_placed(bytes: Seq<u8>, at: int, value: u64)
    requires
        0 <= at,
        at + 8 <= bytes.len(),
        bytes.subrange(at, at + 8) == u64_bytes(value),
    ensures
        u64_at(bytes, at) == value,
{
    let placed = bytes.subrange(at, at + 8);
    let low = (value % 0x1_0000_0000) as u32;
    let high = (value / 0x1_0000_0000) as u32;
    assert(bytes.subrange(at, at + 4) =~= placed.subrange(0, 4));
    assert(placed.subrange(0, 4) =~= u32_bytes(low));
    assert(bytes.subrange(at + 4, at + 8) =~= placed.subrange(4, 8));
    assert(placed.subrange(4, 8) =~= u32_bytes(high));
    lemma_u32_placed(bytes, at, low);
    lemma_u32_placed(bytes, at + 4, high);
}

/// Four bytes are the bytes of the value that they spell.
pub proof fn lemma_u32_bytes_at(bytes: Seq<u8>, at: int)
    requires
        0 <= at,
        at + 4 <= bytes.len(),
    ensures
        bytes.subrange(at, at + 4) == u32_bytes(u32_at(bytes, at)),
{
    let value = u32_at(bytes, at);
    assert(value == bytes[at] + bytes[at + 1] * 0x100 + bytes[at + 2] * 0x1_0000 + bytes[at + 3]
        * 0x100_0000);
    assert(value % 0x100 == bytes[at]);
    assert(value / 0x100 % 0x100 == bytes[at + 1]);
    assert(value / 0x1_0000 % 0x100 == bytes[at + 2]);
    assert(value / 0x100_0000 == bytes[at + 3]);
    assert(bytes.subrange(at, at + 4) =~= u32_bytes(value));
}

/// Eight bytes are the bytes of the value that they spell.
pub proof fn lemma_u64_bytes_at(bytes: Seq<u8>, at: int)
    requires
        0 <= at,
        at + 8 <= bytes.len(),
    ensures
        bytes.subrange(at, at + 8) == u64_bytes(u64_at(bytes, at)),
{
    lemma_u32_bytes_at(bytes, at);
    lemma_u32_bytes_at(bytes, at + 4);
    let value = u64_at(bytes, at);
    assert(value % 0x1_0000_0000 == u32_at(bytes, at));
    assert(value / 0x1_0000_0000 == u32_at(bytes, at + 4));
    assert(bytes.subrange(at, at + 8) =~= bytes.subrange(at, at + 4) + bytes.subrange(
        at + 4,
        at + 8,
    ));
}

/// Values written at a place inside a longer sequence read back unchanged.
pub proof fn lemma_u32s_round_trip(bytes: Seq<u8>, at: int, values: Seq<u32>)
    requires
        0 <= at,
        at + 4 * values.len() <= bytes.len(),
        bytes.subrange(at, at + 4 * values.len()) == u32s_bytes(values),
    ensures
        u32s_at(bytes, at, values.len() as int) == values,
{
    let written = u32s_bytes(values);
    assert forall|i: int| 0 <= i < values.len() implies u32_at(bytes, at + 4 * i) == values[i] by {
        lemma_u32_round_trip(values[i]);
        assert forall|j: int| 0 <= j < 4 implies bytes[at + 4 * i + j] == #[trigger] u32_bytes(
            values[i],
        )[0 + j] by {
            assert(bytes.subrange(at, at + 4 * values.len())[4 * i + j] == bytes[at + 4 * i + j]);
            assert((4 * i + j) / 4 == i && (4 * i + j) % 4 == j);
        }
        lemma_u32_at_frame(bytes, at + 4 * i, u32_bytes(values[i]), 0);
    }
    assert(u32s_at(bytes, at, values.len() as int) =~= values);
}

/// Consecutive values are spelled by exactly their bytes.
pub proof fn lemma_u32s_bytes_at(bytes: Seq<u8>, at: int, count: int)
    requires
        0 <= at,
        0 <= count,
        at + 4 * count <= bytes.len(),
    ensures
        bytes.subrange(at, at + 4 * count) == u32s_bytes(u32s_at(bytes, at, count)),
{
    let values = u32s_at(bytes, at, count);
    assert forall|i: int| 0 <= i < 4 * count implies bytes.subrange(at, at + 4 * count)[i]
        == #[trigger] u32s_bytes(values)[i] by {
        let k = i / 4;
        lemma_u32_bytes_at(bytes, at + 4 * k);
        assert(bytes.subrange(at + 4 * k, at + 4 * k + 4)[i % 4] == bytes[at + i]);
    }
    assert(bytes.subrange(at, at + 4 * count) =~= u32s_bytes(values));
}

/// A cursor over bytes in memory. It refuses to move past their end.
pub struct ByteReader<'a> {
    pub bytes: &'a [u8],
    pub position: usize,
}

impl<'a> ByteReader<'a> {
    /// The cursor stands inside the bytes or at their end.
    pub open spec fn valid(self) -> bool {
        self.position <= self.bytes@.len()
    }

    /// The cursor has moved by `count` over the same bytes.
    pub open spec fn advanced(self, before: Self, count: int) -> bool {
        self.bytes == before.bytes && self.position == before.position + count
    }

    /// A cursor at the first byte.
    pub fn new(bytes: &'a [u8]) -> (reader: Self)
        ensures
            reader.valid(),
            reader.bytes == bytes,
            reader.position == 0,
    {
        ByteReader { bytes, position: 0 }
    }

    /// Whether every byte has been read.
    pub fn at_end(&self) -> (end: bool)
        requires
            self.valid(),
        ensures
            end == (self.position == self.bytes@.len()),
    {
        self.position == self.bytes.len()
    }

    /// Takes one unsigned 32-bit value, or nothing where fewer than four bytes
    /// are left.
    pub fn take_u32(&mut self) -> (value: Option<u32>)
        requires
            old(self).valid(),
        ensures
            final(self).valid(),
            match value {
                Some(v) => {
                    &&& old(self).position + 4 <= old(self).bytes@.len()
                    &&& v == u32_at(old(self).bytes@, old(self).position as int)
                    &&& final(self).advanced(*old(self), 4)
                },
                None => old(self).position + 4 > old(self).bytes@.len() && *final(self) == *old(
                    self,
                ),
            },
    {
        if self.bytes.len() - self.position < 4 {
            return None;
        }
        let at: usize = self.position;
        let value: u32 = self.bytes[at] as u32 + self.bytes[at + 1] as u32 * 0x100 + self.bytes[at
            + 2] as u32 * 0x1_0000 + self.bytes[at + 3] as u32 * 0x100_0000;
        self.position = at + 4;
        Some(value)
    }

    /// Takes one signed 32-bit value.
    pub fn take_i32(&mut self) -> (value: Option<i32>)
        requires
            old(self).valid(),
        ensures
            final(self).valid(),
            match value {
                Some(v) => {
                    &&& old(self).position + 4 <= old(self).bytes@.len()
                    &&& v == i32_of(u32_at(old(self).bytes@, old(self).position as int))
                    &&& final(self).advanced(*old(self), 4)
                },
                None => old(self).position + 4 > old(self).bytes@.len() && *final(self) == *old(
                    self,
                ),
            },
    {
        match self.take_u32() {
            Some(bits) => {
                if bits < 0x8000_0000 {
                    Some(bits as i32)
                } else {
                    Some((bits as i64 - 0x1_0000_0000i64) as i32)
                }
            },
            None => None,
        }
    }

    /// Takes one unsigned 64-bit value.
    pub fn take_u64(&mut self) -> (value: Option<u64>)
        requires
            old(self).valid(),
        ensures
            final(self).valid(),
            final(self).bytes == old(self).bytes,
            match value {
                Some(v) => {
                    &&& old(self).position + 8 <= old(self).bytes@.len()
                    &&& v == u64_at(old(self).bytes@, old(self).position as int)
                    &&& final(self).advanced(*old(self), 8)
                },
                None => old(self).position + 8 > old(self).bytes@.len(),
            },
    {
        let low: u32 = match self.take_u32() {
            Some(v) => v,
            None => return None,
        };
        let high: u32 = match self.take_u32() {
            Some(v) => v,
            None => return None,
        };
        Some(low as u64 + high as u64 * 0x1_0000_0000)
    }

    /// Takes `count` unsigned 32-bit values, or nothing where fewer are left.
    pub fn take_u32s(&mut self, count: usize) -> (values: Option<Vec<u32>>)
        requires
            old(self).valid(),
        ensures
            final(self).valid(),
            match values {
                Some(v) => {
                    &&& old(self).position + 4 * count <= old(self).bytes@.len()
                    &&& v@ == u32s_at(old(self).bytes@, old(self).position as int, count as int)
                    &&& final(self).advanced(*old(self), 4 * count)
                },
                None => old(self).position + 4 * count > old(self).bytes@.len() && *final(self)
                    == *old(self),
            },
    {
        if (self.bytes.len() - self.position) / 4 < count {
            return None;
        }
        let ghost start = *self;
        let mut values: Vec<u32> = Vec::new();
        for i in 0..count
            invariant
                self.valid(),
                start.valid(),
                self.advanced(start, 4 * i),
                start.position + 4 * count <= start.bytes@.len(),
                values@ == u32s_at(start.bytes@, start.position as int, i as int),
        {
            match self.take_u32() {
                Some(value) => {
                    values.push(value);
                },
                None => {
                    assert(false);
                },
            }
            assert(values@ =~= u32s_at(start.bytes@, start.position as int, i + 1));
        }
        Some(values)
    }

    /// Takes `count` signed 32-bit values, or nothing where fewer are left.
    pub fn take_i32s(&mut self, count: usize) -> (values: Option<Vec<i32>>)
        requires
            old(self).valid(),
        ensures
            final(self).valid(),
            match values {
                Some(v) => {
                    &&& old(self).position + 4 * count <= old(self).bytes@.len()
                    &&& v@ == i32s_at(old(self).bytes@, old(self).position as int, count as int)
                    &&& final(self).advanced(*old(self), 4 * count)
                },
                None => old(self).position + 4 * count > old(self).bytes@.len() && *final(self)
                    == *old(self),
            },
    {
        if (self.bytes.len() - self.position) / 4 < count {
            return None;
        }
        let ghost start = *self;
        let mut values: Vec<i32> = Vec::new();
        for i in 0..count
            invariant
                self.valid(),
                start.valid(),
                self.advanced(start, 4 * i),
                start.position + 4 * count <= start.bytes@.len(),
                values@ == i32s_at(start.bytes@, start.position as int, i as int),
        {
            match self.take_i32() {
                Some(value) => {
                    values.push(value);
                },
                None => {
                    assert(false);
                },
            }
            assert(values@ =~= i32s_at(start.bytes@, start.position as int, i + 1));
        }
        Some(values)
    }

    /// Takes `count` bytes, or nothing where fewer are left.
    pub fn take_bytes(&mut self, count: usize) -> (values: Option<Vec<u8>>)
        requires
            old(self).valid(),
        ensures
            final(self).valid(),
            match values {
                Some(v) => {
                    &&& old(self).position + count <= old(self).bytes@.len()
                    &&& v@ == old(self).bytes@.subrange(
                        old(self).position as int,
                        old(self).position + count,
                    )
                    &&& final(self).advanced(*old(self), count as int)
                },
                None => old(self).position + count > old(self).bytes@.len() && *final(self)
                    == *old(self),
            },
    {
        if self.bytes.len() - self.position < count {
            return None;
        }
        let at: usize = self.position;
        let end: usize = at + count;
        let mut values: Vec<u8> = Vec::new();
        for i in 0..count
            invariant
                end == at + count,
                end <= self.bytes@.len(),
                values@ == self.bytes@.subrange(at as int, at + i),
        {
            values.push(self.bytes[at + i]);
            assert(values@ =~= self.bytes@.subrange(at as int, at + i + 1));
        }
        self.position = end;
        Some(values)
    }
}

/// Appends the four bytes of a value.
pub fn put_u32(out: &mut Vec<u8>, value: u32)
    ensures
        final(out)@ == old(out)@ + u32_bytes(value),
{
    out.push((value % 0x100) as u8);
    out.push((value / 0x100 % 0x100) as u8);
    out.push((value / 0x1_0000 % 0x100) as u8);
    out.push((value / 0x100_0000) as u8);
    assert(out@ =~= old(out)@ + u32_bytes(value));
}

/// Appends the eight bytes of a value.
pub fn put_u64(out: &mut Vec<u8>, value: u64)
    ensures
        final(out)@ == old(out)@ + u64_bytes(value),
{
    put_u32(out, (value % 0x1_0000_0000) as u32);
    put_u32(out, (value / 0x1_0000_0000) as u32);
    assert(out@ =~= old(out)@ + u64_bytes(value));
}

/// Appends the bytes of consecutive values.
pub fn put_u32s(out: &mut Vec<u8>, values: &[u32])
    ensures
        final(out)@ == old(out)@ + u32s_bytes(values@),
{
    for i in 0..values.len()
        invariant
            out@ == old(out)@ + u32s_bytes(values@.take(i as int)),
    {
        put_u32(out, values[i]);
        assert(u32s_bytes(values@.take(i + 1)) =~= u32s_bytes(values@.take(i as int)) + u32_bytes(
            values@[i as int],
        ));
        assert(out@ =~= old(out)@ + u32s_bytes(values@.take(i + 1)));
    }
    assert(values@.take(values@.len() as int) =~= values@);
}

/// Appends bytes as they are.
pub fn put_bytes(out: &mut Vec<u8>, values: &[u8])
    ensures
        final(out)@ == old(out)@ + values@,
{
    for i in 0..values.len()
        invariant
            out@ == old(out)@ + values@.take(i as int),
    {
        out.push(values[i]);
        assert(out@ =~= old(out)@ + values@.take(i + 1));
    }
    assert(values@.take(values@.len() as int) =~= values@);
}

/// Values stand lowest byte first, and a signed value is its pattern in two's
/// complement: it agrees with the unsigned one up to a multiple of two to the 32.
pub proof fn law_values_are_little_endian(bytes: Seq<u8>, at: int, value: u32, wide: u64)
    ensures
        u32_at(bytes, at) == bytes[at] + 256 * bytes[at + 1] + 65536 * bytes[at + 2] + 16777216
            * bytes[at + 3],
        u64_at(bytes, at) == u32_at(bytes, at) + 4294967296 * u32_at(bytes, at + 4),
        u32_bytes(value).len() == 4,
        value == u32_bytes(value)[0] + 256 * u32_bytes(value)[1] + 65536 * u32_bytes(value)[2]
            + 16777216 * u32_bytes(value)[3],
        u64_bytes(wide).len() == 8,
        wide % 4294967296 == u64_bytes(wide)[0] + 256 * u64_bytes(wide)[1] + 65536 * u64_bytes(
            wide,
        )[2] + 16777216 * u64_bytes(wide)[3],
        wide / 4294967296 == u64_bytes(wide)[4] + 256 * u64_bytes(wide)[5] + 65536 * u64_bytes(
            wide,
        )[6] + 16777216 * u64_bytes(wide)[7],
        i32_of(value) == value || i32_of(value) == value - 4294967296,
{
}

/// Values that follow each other are four bytes apart.
pub proof fn law_values_follow_each_other(
    bytes: Seq<u8>,
    at: int,
    count: int,
    values: Seq<u32>,
    i: int,
)
    requires
        0 <= i,
    ensures
        i < count ==> u32s_at(bytes, at, count)[i] == u32_at(bytes, at + 4 * i)
            && i32s_at(bytes, at, count)[i] == i32_of(u32_at(bytes, at + 4 * i)),
        0 <= count ==> u32s_at(bytes, at, count).len() == count && i32s_at(bytes, at, count).len()
            == count,
        u32s_bytes(values).len() == 4 * values.len(),
        i < values.len() ==> u32s_bytes(values).subrange(4 * i, 4 * i + 4) == u32_bytes(values[i]),
{
    if i < values.len() {
        assert(u32s_bytes(values).subrange(4 * i, 4 * i + 4) =~= u32_bytes(values[i]));
    }
}

} // verus!
