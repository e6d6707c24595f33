use byteorder::{ByteOrder, LittleEndian, WriteBytesExt};
use vstd::prelude::*;

verus! {

broadcast use vstd::array::group_array_axioms;

/// Why reading a file failed.
#[derive(Debug, Clone, Copy, PartialEq, Eq, Structural)]
pub enum ReadError {
    /// The data ended before a field was complete.
    UnexpectedEof,
    /// The file does not start with the expected magic string.
    InvalidHeader,
    /// A text field does not have the expected shape.
    Malformed,
    /// A keyframe chain refers to a keyframe index that was never stored.
    MissingKeyframe,
    /// A keyframe chain never reaches its end marker.
    CyclicKeyframes,
}

// ---------------------------------------------------------------------------
// Little-endian integers
// ---------------------------------------------------------------------------

/// The unsigned integer that four bytes denote in little-endian order.
pub open spec fn spec_u32_le(b: Seq<u8>) -> u32 {
    (b[0] as int + 256 * b[1] as int + 65536 * b[2] as int + 16777216 * b[3] as int) as u32
}

/// The four bytes of `n` in little-endian order.
pub open spec fn u32_le_bytes(n: u32) -> Seq<u8> {
    seq![
        (n % 256) as u8,
        ((n / 256) % 256) as u8,
        ((n / 65536) % 256) as u8,
        ((n / 16777216) % 256) as u8,
    ]
}

/// Reads the little-endian `u32` at `pos` through `byteorder`:
/// `LittleEndian::read_u32` interprets the first four bytes of the slice it
/// is given as a little-endian unsigned integer (and panics on fewer than four).
#[verifier::external_body]
fn le_u32_at(data: &[u8], pos: usize) -> (n: u32)
    requires
        pos + 4 <= data@.len(),
    ensures
        n == spec_u32_le(data@.subrange(pos as int, pos + 4)),
{
    LittleEndian::read_u32(&data[pos..])
}

/// Appends `n` in little-endian order through `byteorder`:
/// `WriteBytesExt::write_u32::<LittleEndian>` writes the four little-endian
/// bytes of `n` with `write_all`, which on a `Vec<u8>` appends them and
/// cannot fail.
#[verifier::external_body]
pub(crate) fn append_u32_le(file: &mut Vec<u8>, n: u32)
    ensures
        final(file)@ == old(file)@ + u32_le_bytes(n),
{
    file.write_u32::<LittleEndian>(n).unwrap()
}

/// Appends one byte through `byteorder`: `WriteBytesExt::write_u8` writes
/// `[n]` with `write_all`, which on a `Vec<u8>` appends it and cannot fail.
#[verifier::external_body]
pub(crate) fn append_u8(file: &mut Vec<u8>, n: u8)
    ensures
        final(file)@ == old(file)@.push(n),
{
    file.write_u8(n).unwrap()
}

/// `n` zero bytes.
pub open spec fn zeros(n: nat) -> Seq<u8> {
    Seq::new(n, |i: int| 0u8)
}

/// The little-endian bytes of each word of `ws`, in order.
pub open spec fn words_bytes(ws: Seq<u32>) -> Seq<u8>
    decreases ws.len(),
{
    if ws.len() == 0 {
        Seq::empty()
    } else {
        words_bytes(ws.drop_last()) + u32_le_bytes(ws.last())
    }
}

/// Decoding the encoding of a `u32` gives it back.
pub proof fn lemma_u32_le_roundtrip(n: u32)
    ensures
        spec_u32_le(u32_le_bytes(n)) == n,
        u32_le_bytes(n).len() == 4,
{
    let b = u32_le_bytes(n);
    let n0 = n % 256;
    let n1 = (n / 256) % 256;
    let n2 = (n / 65536) % 256;
    let n3 = (n / 16777216) % 256;
    assert(b[0] == n0 && b[1] == n1 && b[2] == n2 && b[3] == n3);
    assert(n0 + 256 * n1 + 65536 * n2 + 16777216 * n3 == n) by (nonlinear_arith)
        requires
            n0 == n % 256,
            n1 == (n / 256) % 256,
            n2 == (n / 65536) % 256,
            n3 == (n / 16777216) % 256,
            n <= 0xffff_ffff,
    ;
}

// ---------------------------------------------------------------------------
// The byte cursor
// ---------------------------------------------------------------------------

/// An in-memory file being read front to back.
pub struct ByteCursor {
    data: Vec<u8>,
    pos: usize,
}

impl ByteCursor {
    /// The next byte to read is inside the file or just past its end.
    #[verifier::type_invariant]
    spec fn inv(&self) -> bool {
        self.pos <= self.data@.len()
    }

    /// All bytes of the file.
    pub closed spec fn bytes(&self) -> Seq<u8> {
        self.data@
    }

    /// The offset of the next byte to read.
    pub closed spec fn pos(&self) -> int {
        if self.pos <= self.data@.len() {
            self.pos as int
        } else {
            self.data@.len() as int
        }
    }

    /// A cursor at the start of `data`.
    pub fn new(data: Vec<u8>) -> (c: ByteCursor)
        ensures
            c.bytes() == data@,
            c.pos() == 0,
    {
        ByteCursor { data, pos: 0 }
    }

    /// The offset of the next byte to read.
    pub fn position(&self) -> (p: usize)
        ensures
            p == self.pos(),
    {
        proof {
            use_type_invariant(self);
        }
        self.pos
    }
}

/// The read offset of a cursor is never past the end of its file.
pub broadcast proof fn lemma_pos_in_bounds(c: ByteCursor)
    ensures
        0 <= #[trigger] c.pos() <= c.bytes().len(),
{
}

/// Reading `n` bytes at `pos` of `data` stays inside it.
pub open spec fn fits(data: Seq<u8>, pos: int, n: int) -> bool {
    0 <= pos && 0 <= n && pos + n <= data.len()
}

/// What an exec read returned (`res`, and the cursor offset `end` after it)
/// agrees with what the format says (`spec`): the same value by view and
/// the same end offset, or the same error.
pub open spec fn read_agrees<T: View>(
    spec: Result<(T::V, int), ReadError>,
    res: Result<T, ReadError>,
    end: int,
) -> bool {
    match spec {
        Ok((v, p)) => res matches Ok(x) && x@ == v && end == p,
        Err(e) => res matches Err(e2) && e2 == e,
    }
}

/// The byte at `pos`, and the offset after it.
pub open spec fn spec_read_u8(data: Seq<u8>, pos: int) -> Result<(u8, int), ReadError> {
    if fits(data, pos, 1) {
        Ok((data[pos], pos + 1))
    } else {
        Err(ReadError::UnexpectedEof)
    }
}

/// The `u32` stored little-endian at `pos`, and the offset after it.
pub open spec fn spec_read_u32(data: Seq<u8>, pos: int) -> Result<(u32, int), ReadError> {
    if fits(data, pos, 4) {
        Ok((spec_u32_le(data.subrange(pos, pos + 4)), pos + 4))
    } else {
        Err(ReadError::UnexpectedEof)
    }
}

/// A flag byte at `pos` (set when it is exactly 1), and the offset after it.
pub open spec fn spec_read_flag(data: Seq<u8>, pos: int) -> Result<(bool, int), ReadError> {
    if fits(data, pos, 1) {
        Ok((data[pos] == 1, pos + 1))
    } else {
        Err(ReadError::UnexpectedEof)
    }
}

/// `n` consecutive little-endian `u32` words at `pos`.
pub open spec fn le_words(data: Seq<u8>, pos: int, n: nat) -> Seq<u32> {
    Seq::new(n, |i: int| spec_u32_le(data.subrange(pos + 4 * i, pos + 4 * i + 4)))
}

/// `n` binary32 values (as bit patterns) at `pos`, and the offset after them.
pub open spec fn spec_read_words(data: Seq<u8>, pos: int, n: nat) -> Result<(Seq<u32>, int), ReadError> {
    if fits(data, pos, 4 * n as int) {
        Ok((le_words(data, pos, n), pos + 4 * n))
    } else {
        Err(ReadError::UnexpectedEof)
    }
}

/// Reads one byte and moves past it.
pub fn read_u8(file: &mut ByteCursor) -> (res: Result<u8, ReadError>)
    ensures
        final(file).bytes() == old(file).bytes(),
        read_agrees(spec_read_u8(old(file).bytes(), old(file).pos()), res, final(file).pos()),
{
    proof {
        use_type_invariant(&*file);
    }
    if file.pos < file.data.len() {
        let v = file.data[file.pos];
        file.pos = file.pos + 1;
        Ok(v)
    } else {
        Err(ReadError::UnexpectedEof)
    }
}

/// Reads a little-endian `u32` and moves past it.
pub fn read_u32(file: &mut ByteCursor) -> (res: Result<u32, ReadError>)
    ensures
        final(file).bytes() == old(file).bytes(),
        read_agrees(spec_read_u32(old(file).bytes(), old(file).pos()), res, final(file).pos()),
{
    proof {
        use_type_invariant(&*file);
    }
    if file.pos <= file.data.len() && file.data.len() - file.pos >= 4 {
        let v = le_u32_at(file.data.as_slice(), file.pos);
        file.pos = file.pos + 4;
        Ok(v)
    } else {
        Err(ReadError::UnexpectedEof)
    }
}

/// Reads a flag byte (set when it is exactly 1) and moves past it.
pub fn read_flag(file: &mut ByteCursor) -> (res: Result<bool, ReadError>)
    ensures
        final(file).bytes() == old(file).bytes(),
        read_agrees(spec_read_flag(old(file).bytes(), old(file).pos()), res, final(file).pos()),
{
    let b = read_u8(file)?;
    Ok(b == 1)
}

/// Reads three binary32 values as their bit patterns, or reports that
/// the file ends first.
pub fn try_read_float3(file: &mut ByteCursor) -> (res: Result<[u32; 3], ReadError>)
    ensures
        final(file).bytes() == old(file).bytes(),
        read_agrees(spec_read_words(old(file).bytes(), old(file).pos(), 3), res, final(file).pos()),
{
    let ghost data = file.bytes();
    let ghost p0 = file.pos();
    let x = read_u32(file)?;
    let y = read_u32(file)?;
    let z = read_u32(file)?;
    let r = [x, y, z];
    assert(r@ =~= le_words(data, p0, 3));
    Ok(r)
}

/// Reads four binary32 values as their bit patterns, or reports that the
/// file ends first.
pub fn try_read_float4(file: &mut ByteCursor) -> (res: Result<[u32; 4], ReadError>)
    ensures
        final(file).bytes() == old(file).bytes(),
        read_agrees(spec_read_words(old(file).bytes(), old(file).pos(), 4), res, final(file).pos()),
{
    let ghost data = file.bytes();
    let ghost p0 = file.pos();
    let x = read_u32(file)?;
    let y = read_u32(file)?;
    let z = read_u32(file)?;
    let w = read_u32(file)?;
    let r = [x, y, z, w];
    assert(r@ =~= le_words(data, p0, 4));
    Ok(r)
}


/// Reads three binary32 values as their bit patterns; the file must hold
/// all twelve bytes.
pub fn read_float3(file: &mut ByteCursor) -> (v: [u32; 3])
    requires
        spec_read_words(old(file).bytes(), old(file).pos(), 3) is Ok,
    ensures
        final(file).bytes() == old(file).bytes(),
        spec_read_words(old(file).bytes(), old(file).pos(), 3)->Ok_0 == (v@, final(file).pos()),
{
    match try_read_float3(file) {
        Ok(v) => v,
        Err(_) => unreached(),
    }
}

/// Reads four binary32 values as their bit patterns; the file must hold
/// all sixteen bytes.
pub fn read_float4(file: &mut ByteCursor) -> (v: [u32; 4])
    requires
        spec_read_words(old(file).bytes(), old(file).pos(), 4) is Ok,
    ensures
        final(file).bytes() == old(file).bytes(),
        spec_read_words(old(file).bytes(), old(file).pos(), 4)->Ok_0 == (v@, final(file).pos()),
{
    match try_read_float4(file) {
        Ok(v) => v,
        Err(_) => unreached(),
    }
}


/// `n` raw bytes at `pos`, and the offset after them.
pub open spec fn spec_read_bytes(data: Seq<u8>, pos: int, n: nat) -> Result<(Seq<u8>, int), ReadError> {
    if fits(data, pos, n as int) {
        Ok((data.subrange(pos, pos + n), pos + n))
    } else {
        Err(ReadError::UnexpectedEof)
    }
}

/// How many of `n` wanted bytes are left at `pos`.
pub open spec fn available(data: Seq<u8>, pos: int, n: nat) -> nat {
    if pos >= data.len() {
        0
    } else if pos + n <= data.len() {
        n
    } else {
        (data.len() - pos) as nat
    }
}

/// Reads `n` raw bytes and moves past them.
pub fn read_bytes(file: &mut ByteCursor, n: usize) -> (res: Result<Vec<u8>, ReadError>)
    ensures
        final(file).bytes() == old(file).bytes(),
        read_agrees(spec_read_bytes(old(file).bytes(), old(file).pos(), n as nat), res, final(file).pos()),
{
    proof {
        use_type_invariant(&*file);
    }
    if file.pos <= file.data.len() && file.data.len() - file.pos >= n {
        let v = read_up_to(file, n);
        Ok(v)
    } else {
        Err(ReadError::UnexpectedEof)
    }
}

/// Reads as many of the next `n` bytes as are left (at most `n`) and moves
/// past them, as one `read` call on an in-memory reader does.
pub fn read_up_to(file: &mut ByteCursor, n: usize) -> (v: Vec<u8>)
    ensures
        final(file).bytes() == old(file).bytes(),
        v@ == old(file).bytes().subrange(
            old(file).pos(),
            old(file).pos() + available(old(file).bytes(), old(file).pos(), n as nat),
        ),
        final(file).pos() == old(file).pos() + available(old(file).bytes(), old(file).pos(), n as nat),
{
    proof {
        use_type_invariant(&*file);
    }
    let len = file.data.len();
    let start = file.pos;
    let end: usize = if start >= len {
        start
    } else if len - start >= n {
        start + n
    } else {
        len
    };
    let mut v: Vec<u8> = Vec::new();
    let mut i = start;
    assert(v@ =~= file.data@.subrange(start as int, i as int));
    while i < end
        invariant
            start <= i <= end,
            end <= len || end == start,
            len == file.data@.len(),
            v@ == file.data@.subrange(start as int, i as int),
        decreases end - i,
    {
        v.push(file.data[i]);
        i = i + 1;
        assert(v@ =~= file.data@.subrange(start as int, i as int));
    }
    file.pos = end;
    v
}

// ---------------------------------------------------------------------------
// Runs of items
// ---------------------------------------------------------------------------

/// A format for one item of a run of items read back to back.
pub trait ItemReader {
    /// What one item reads as.
    type Item: View;

    /// The item stored at `pos` of `data`, and the offset after it.
    spec fn spec_read(&self, data: Seq<u8>, pos: int) -> Result<(<Self::Item as View>::V, int), ReadError>;

    /// Reads one item and moves past it.
    fn read_item(&self, file: &mut ByteCursor) -> (res: Result<Self::Item, ReadError>)
        ensures
            final(file).bytes() == old(file).bytes(),
            read_agrees(self.spec_read(old(file).bytes(), old(file).pos()), res, final(file).pos()),
    ;
}

/// The views of a sequence of values.
pub open spec fn views<T: View>(s: Seq<T>) -> Seq<T::V> {
    s.map_values(|x: T| x@)
}

/// `count` items of format `r` stored back to back from `pos`, and the
/// offset after the last one; the first failing item decides the error.
pub open spec fn spec_read_fix_items<R: ItemReader>(r: R, data: Seq<u8>, pos: int, count: nat) -> Result<
    (Seq<<R::Item as View>::V>, int),
    ReadError,
>
    decreases count,
{
    if count == 0 {
        Ok((Seq::empty(), pos))
    } else {
        match r.spec_read(data, pos) {
            Err(e) => Err(e),
            Ok((v, p)) => match spec_read_fix_items(r, data, p, (count - 1) as nat) {
                Err(e) => Err(e),
                Ok((vs, q)) => Ok((seq![v] + vs, q)),
            },
        }
    }
}

/// A run of items preceded by its length as a little-endian `u32`.
pub open spec fn spec_read_items<R: ItemReader>(r: R, data: Seq<u8>, pos: int) -> Result<
    (Seq<<R::Item as View>::V>, int),
    ReadError,
> {
    match spec_read_u32(data, pos) {
        Err(e) => Err(e),
        Ok((n, p)) => spec_read_fix_items(r, data, p, n as nat),
    }
}

/// A vector of items agrees with what the format says, by views.
pub open spec fn items_agree<T: View>(
    spec: Result<(Seq<T::V>, int), ReadError>,
    res: Result<Vec<T>, ReadError>,
    end: int,
) -> bool {
    match spec {
        Ok((vs, p)) => res matches Ok(x) && views(x@) == vs && end == p,
        Err(e) => res matches Err(e2) && e2 == e,
    }
}

/// `acc` followed by the items of `rest`.
pub open spec fn prepend_items<V>(acc: Seq<V>, rest: Result<(Seq<V>, int), ReadError>) -> Result<
    (Seq<V>, int),
    ReadError,
> {
    match rest {
        Ok((vs, q)) => Ok((acc + vs, q)),
        Err(e) => Err(e),
    }
}

/// Reads `count` items of format `f` stored back to back, or reports the
/// error of the first item that cannot be read.
pub fn try_read_fix_items<R: ItemReader>(file: &mut ByteCursor, count: usize, f: &R) -> (res: Result<
    Vec<R::Item>,
    ReadError,
>)
    ensures
        final(file).bytes() == old(file).bytes(),
        items_agree(
            spec_read_fix_items(*f, old(file).bytes(), old(file).pos(), count as nat),
            res,
            final(file).pos(),
        ),
{
    let ghost data = file.bytes();
    let ghost p0 = file.pos();
    let mut items: Vec<R::Item> = Vec::new();
    let mut i: usize = 0;
    assert(views(items@) + seq![] =~= views(items@));
    while i < count
        invariant
            i <= count,
            data == old(file).bytes(),
            p0 == old(file).pos(),
            file.bytes() == data,
            spec_read_fix_items(*f, data, p0, count as nat) == prepend_items(
                views(items@),
                spec_read_fix_items(*f, data, file.pos(), (count - i) as nat),
            ),
        decreases count - i,
    {
        let ghost before = views(items@);
        let ghost pos = file.pos();
        let item = f.read_item(file)?;
        items.push(item);
        proof {
            assert(views(items@) =~= before.push(item@));
            let rest = spec_read_fix_items(*f, data, file.pos(), (count - i - 1) as nat);
            match rest {
                Ok((vs, q)) => {
                    assert(before + (seq![item@] + vs) =~= views(items@) + vs);
                },
                Err(e) => {},
            }
        }
        i = i + 1;
    }
    proof {
        assert(views(items@) + Seq::<<R::Item as View>::V>::empty() =~= views(items@));
    }
    Ok(items)
}

/// Reads a run of items preceded by its length as a little-endian `u32`,
/// or reports the first error met.
pub fn try_read_items<R: ItemReader>(file: &mut ByteCursor, f: &R) -> (res: Result<Vec<R::Item>, ReadError>)
    ensures
        final(file).bytes() == old(file).bytes(),
        items_agree(spec_read_items(*f, old(file).bytes(), old(file).pos()), res, final(file).pos()),
{
    let count = read_u32(file)?;
    try_read_fix_items(file, count as usize, f)
}

/// Reads `count` items of format `f` stored back to back; every item must
/// be there and well formed.
pub fn read_fix_items<R: ItemReader>(file: &mut ByteCursor, count: usize, f: &R) -> (v: Vec<R::Item>)
    requires
        spec_read_fix_items(*f, old(file).bytes(), old(file).pos(), count as nat) is Ok,
    ensures
        final(file).bytes() == old(file).bytes(),
        spec_read_fix_items(*f, old(file).bytes(), old(file).pos(), count as nat)->Ok_0 == (
            views(v@),
            final(file).pos(),
        ),
{
    match try_read_fix_items(file, count, f) {
        Ok(v) => v,
        Err(_) => unreached(),
    }
}

/// Reads a run of items preceded by its length as a little-endian `u32`;
/// the length and every item must be there and well formed.
pub fn read_items<R: ItemReader>(file: &mut ByteCursor, f: &R) -> (v: Vec<R::Item>)
    requires
        spec_read_items(*f, old(file).bytes(), old(file).pos()) is Ok,
    ensures
        final(file).bytes() == old(file).bytes(),
        spec_read_items(*f, old(file).bytes(), old(file).pos())->Ok_0 == (views(v@), final(file).pos()),
{
    match try_read_items(file, f) {
        Ok(v) => v,
        Err(_) => unreached(),
    }
}


/// Items that are single bytes.
#[derive(Clone, Copy)]
pub struct U8Item;

impl ItemReader for U8Item {
    type Item = u8;

    open spec fn spec_read(&self, data: Seq<u8>, pos: int) -> Result<(u8, int), ReadError> {
        spec_read_u8(data, pos)
    }

    fn read_item(&self, file: &mut ByteCursor) -> (res: Result<u8, ReadError>) {
        read_u8(file)
    }
}

/// Items that are little-endian `u32` words (also binary32 bit patterns).
#[derive(Clone, Copy)]
pub struct U32Item;

impl ItemReader for U32Item {
    type Item = u32;

    open spec fn spec_read(&self, data: Seq<u8>, pos: int) -> Result<(u32, int), ReadError> {
        spec_read_u32(data, pos)
    }

    fn read_item(&self, file: &mut ByteCursor) -> (res: Result<u32, ReadError>) {
        read_u32(file)
    }
}

/// Items that are flag bytes.
#[derive(Clone, Copy)]
pub struct FlagItem;

impl ItemReader for FlagItem {
    type Item = bool;

    open spec fn spec_read(&self, data: Seq<u8>, pos: int) -> Result<(bool, int), ReadError> {
        spec_read_flag(data, pos)
    }

    fn read_item(&self, file: &mut ByteCursor) -> (res: Result<bool, ReadError>) {
        read_flag(file)
    }
}

/// Items of format `r` that each take exactly `width` bytes fill
/// `count * width` bytes; the run fails exactly when those bytes are not there.
pub proof fn lemma_fixed_width_run<R: ItemReader>(r: R, data: Seq<u8>, pos: int, count: nat, width: nat)
    requires
        0 <= pos,
        forall|p: int|
            0 <= p ==> (#[trigger] r.spec_read(data, p) matches Ok((_, q)) ==> q == p + width),
        forall|p: int|
            0 <= p ==> (#[trigger] r.spec_read(data, p) is Ok <==> fits(data, p, width as int)),
        forall|p: int| 0 <= p ==> (#[trigger] r.spec_read(data, p) matches Err(e) ==> e == ReadError::UnexpectedEof),
    ensures
        spec_read_fix_items(r, data, pos, count) matches Ok((vs, q)) ==> q == pos + count * width
            && vs.len() == count,
        spec_read_fix_items(r, data, pos, count) is Ok <==> (count == 0 || fits(data, pos, (count * width) as int)),
        spec_read_fix_items(r, data, pos, count) matches Err(e) ==> e == ReadError::UnexpectedEof,
    decreases count,
{
    if count > 0 {
        assert(r.spec_read(data, pos) is Ok <==> fits(data, pos, width as int));
        lemma_fixed_width_run(r, data, pos + width, (count - 1) as nat, width);
        assert(count * width == width + (count - 1) * width && (count - 1) * width >= 0)
            by (nonlinear_arith)
            requires count > 0;
    }
}


/// A successful run of `count` items holds `count` items.
pub proof fn lemma_fix_items_len<R: ItemReader>(r: R, data: Seq<u8>, pos: int, count: nat)
    ensures
        spec_read_fix_items(r, data, pos, count) matches Ok((vs, _)) ==> vs.len() == count,
    decreases count,
{
    if count > 0 {
        if let Ok((_, p)) = r.spec_read(data, pos) {
            lemma_fix_items_len(r, data, p, (count - 1) as nat);
        }
    }
}

/// A run of `count` single bytes is those bytes.
pub proof fn lemma_u8_run(data: Seq<u8>, pos: int, count: nat)
    requires
        0 <= pos <= data.len(),
    ensures
        spec_read_fix_items(U8Item, data, pos, count) == if fits(data, pos, count as int) {
            Ok::<(Seq<u8>, int), ReadError>((data.subrange(pos, pos + count), pos + count))
        } else {
            Err::<(Seq<u8>, int), ReadError>(ReadError::UnexpectedEof)
        },
    decreases count,
{
    if count > 0 {
        if pos + 1 <= data.len() {
            lemma_u8_run(data, pos + 1, (count - 1) as nat);
        }
        if fits(data, pos, count as int) {
            assert(seq![data[pos]] + data.subrange(pos + 1, pos + count) =~= data.subrange(pos, pos + count));
        }
    } else {
        assert(data.subrange(pos, pos) =~= Seq::<u8>::empty());
    }
}


// ---------------------------------------------------------------------------
// Writing
// ---------------------------------------------------------------------------

/// Appends three binary32 values (given as bit patterns) in little-endian order.
pub fn write_float3(file: &mut Vec<u8>, v: [u32; 3])
    ensures
        final(file)@ == old(file)@ + words_bytes(v@),
{
    let ghost start = file@;
    let mut i: usize = 0;
    assert(v@.take(0) =~= Seq::<u32>::empty());
    assert(file@ =~= start + words_bytes(v@.take(0)));
    while i < 3
        invariant
            i <= 3,
            file@ == start + words_bytes(v@.take(i as int)),
        decreases 3 - i,
    {
        append_u32_le(file, v[i]);
        assert(v@.take(i + 1).drop_last() =~= v@.take(i as int));
        i = i + 1;
    }
    assert(v@.take(3) =~= v@);
}

/// Appends four binary32 values (given as bit patterns) in little-endian order.
pub fn write_float4(file: &mut Vec<u8>, v: [u32; 4])
    ensures
        final(file)@ == old(file)@ + words_bytes(v@),
{
    let ghost start = file@;
    let mut i: usize = 0;
    assert(v@.take(0) =~= Seq::<u32>::empty());
    assert(file@ =~= start + words_bytes(v@.take(0)));
    while i < 4
        invariant
            i <= 4,
            file@ == start + words_bytes(v@.take(i as int)),
        decreases 4 - i,
    {
        append_u32_le(file, v[i]);
        assert(v@.take(i + 1).drop_last() =~= v@.take(i as int));
        i = i + 1;
    }
    assert(v@.take(4) =~= v@);
}

/// A value that is written as a record of a file.
pub trait ItemWriter: View + Sized {
    /// The record that a value is written as.
    spec fn record_bytes(v: Self::V) -> Seq<u8>;

    /// Appends the record of this value.
    fn write_item(&self, file: &mut Vec<u8>)
        ensures
            final(file)@ == old(file)@ + Self::record_bytes(self@),
    ;
}

/// The records of the values `vs`, in order.
pub open spec fn records_bytes<T: ItemWriter>(vs: Seq<T::V>) -> Seq<u8>
    decreases vs.len(),
{
    if vs.len() == 0 {
        Seq::empty()
    } else {
        records_bytes::<T>(vs.drop_last()) + T::record_bytes(vs.last())
    }
}

/// A counted run of records: the count as a little-endian `u32` (the
/// length modulo 2^32), then the records.
pub open spec fn items_bytes<T: ItemWriter>(vs: Seq<T::V>) -> Seq<u8> {
    u32_le_bytes(vs.len() as u32) + records_bytes::<T>(vs)
}

/// Appends the count of `content` as a little-endian `u32`, then the record
/// of each item.
pub fn write_items<T: ItemWriter>(file: &mut Vec<u8>, content: &Vec<T>)
    ensures
        final(file)@ == old(file)@ + items_bytes::<T>(views(content@)),
{
    let ghost start = file@;
    let count = content.len();
    append_u32_le(file, count as u32);
    let ghost vs = views(content@);
    let mut i: usize = 0;
    assert(vs.take(0) =~= Seq::<T::V>::empty());
    assert(file@ =~= start + u32_le_bytes(count as u32) + records_bytes::<T>(vs.take(0)));
    while i < count
        invariant
            i <= count == content@.len(),
            vs == views(content@),
            file@ == start + u32_le_bytes(count as u32) + records_bytes::<T>(vs.take(i as int)),
        decreases count - i,
    {
        content[i].write_item(file);
        assert(vs.take(i + 1).drop_last() =~= vs.take(i as int));
        assert(vs.take(i + 1).last() == content@[i as int]@);
        i = i + 1;
    }
    assert(vs.take(count as int) =~= vs);
}

impl ItemWriter for u32 {
    open spec fn record_bytes(v: u32) -> Seq<u8> {
        u32_le_bytes(v)
    }

    fn write_item(&self, file: &mut Vec<u8>) {
        append_u32_le(file, *self)
    }
}


// ---------------------------------------------------------------------------
// Laws
// ---------------------------------------------------------------------------

/// A `u32` written little-endian after any bytes is read back unchanged from
/// where it was written.
pub proof fn law_u32_write_read(prefix: Seq<u8>, n: u32)
    ensures
        spec_read_u32(prefix + u32_le_bytes(n), prefix.len() as int) == Ok::<(u32, int), ReadError>(
            (n, prefix.len() as int + 4),
        ),
{
    lemma_u32_le_roundtrip(n);
    let data = prefix + u32_le_bytes(n);
    assert(data.subrange(prefix.len() as int, prefix.len() as int + 4) =~= u32_le_bytes(n));
}

/// The words of `ws` take four bytes each.
pub proof fn lemma_words_bytes_len(ws: Seq<u32>)
    ensures
        words_bytes(ws).len() == 4 * ws.len(),
    decreases ws.len(),
{
    if ws.len() > 0 {
        lemma_words_bytes_len(ws.drop_last());
    }
}

/// Binary32 values written with `write_float3` / `write_float4` after any
/// bytes are read back unchanged, as bit patterns, by `read_float3` /
/// `read_float4` from where they were written.
pub proof fn law_words_write_read(prefix: Seq<u8>, ws: Seq<u32>)
    ensures
        spec_read_words(prefix + words_bytes(ws), prefix.len() as int, ws.len()) == Ok::<(Seq<u32>, int), ReadError>(
            (ws, prefix.len() + 4 * ws.len() as int),
        ),
    decreases ws.len(),
{
    lemma_words_bytes_len(ws);
    let data = prefix + words_bytes(ws);
    if ws.len() > 0 {
        let init = ws.drop_last();
        law_words_write_read(prefix, init);
        lemma_words_bytes_len(init);
        let last = ws.last();
        assert(data =~= (prefix + words_bytes(init)) + u32_le_bytes(last));
        law_u32_write_read(prefix + words_bytes(init), last);
        let short = prefix + words_bytes(init);
        assert(le_words(data, prefix.len() as int, ws.len()) =~= ws) by {
            assert forall|i: int| 0 <= i < ws.len() implies #[trigger] le_words(data, prefix.len() as int, ws.len())[i] == ws[i] by {
                let lo = prefix.len() + 4 * i;
                if i < init.len() {
                    assert(le_words(short, prefix.len() as int, init.len())[i] == init[i]);
                    assert(data.subrange(lo, lo + 4) =~= short.subrange(lo, lo + 4));
                } else {
                    assert(lo == short.len());
                }
            }
        }
    } else {
        assert(le_words(data, prefix.len() as int, 0) =~= ws);
    }
}


/// Encoding the `u32` that four bytes denote gives the same four bytes.
pub proof fn lemma_u32_le_bytes_of(b: Seq<u8>)
    requires
        b.len() == 4,
    ensures
        u32_le_bytes(spec_u32_le(b)) == b,
{
    let b0 = b[0] as int;
    let b1 = b[1] as int;
    let b2 = b[2] as int;
    let b3 = b[3] as int;
    let n = b0 + 256 * b1 + 65536 * b2 + 16777216 * b3;
    assert(0 <= n <= 0xffff_ffff);
    assert(spec_u32_le(b) == n);
    assert(n % 256 == b0 && (n / 256) % 256 == b1 && (n / 65536) % 256 == b2 && (n / 16777216) % 256 == b3)
        by (nonlinear_arith)
        requires
            0 <= b0 < 256,
            0 <= b1 < 256,
            0 <= b2 < 256,
            0 <= b3 < 256,
            n == b0 + 256 * b1 + 65536 * b2 + 16777216 * b3,
    ;
    assert(u32_le_bytes(spec_u32_le(b)) =~= b);
}

/// Encoding `n` words read at `pos` gives the `4 * n` bytes they were read from.
pub proof fn lemma_words_bytes_of(data: Seq<u8>, pos: int, n: nat)
    requires
        fits(data, pos, 4 * n as int),
    ensures
        words_bytes(le_words(data, pos, n)) == data.subrange(pos, pos + 4 * n),
    decreases n,
{
    if n == 0 {
        assert(le_words(data, pos, 0) =~= Seq::<u32>::empty());
        assert(data.subrange(pos, pos) =~= Seq::<u8>::empty());
    } else {
        let ws = le_words(data, pos, n);
        lemma_words_bytes_of(data, pos, (n - 1) as nat);
        assert(ws.drop_last() =~= le_words(data, pos, (n - 1) as nat));
        let lo = pos + 4 * (n - 1);
        lemma_u32_le_bytes_of(data.subrange(lo, lo + 4));
        assert(data.subrange(pos, lo) + data.subrange(lo, lo + 4) =~= data.subrange(pos, pos + 4 * n));
    }
}


/// Reading `a + b` items in one run gives what reading `a` items and then
/// `b` more from where the first run ended gives; the first failing item
/// decides the error either way.
pub proof fn law_fix_items_split<R: ItemReader>(r: R, data: Seq<u8>, pos: int, a: nat, b: nat)
    ensures
        spec_read_fix_items(r, data, pos, a + b) == match spec_read_fix_items(r, data, pos, a) {
            Ok((xs, q)) => prepend_items(xs, spec_read_fix_items(r, data, q, b)),
            Err(e) => Err(e),
        },
    decreases a,
{
    if a == 0 {
        match spec_read_fix_items(r, data, pos, b) {
            Ok((zs, q)) => {
                assert(Seq::<<R::Item as View>::V>::empty() + zs =~= zs);
            },
            Err(_) => {},
        }
    } else {
        assert((a + b - 1) as nat == (a - 1) as nat + b);
        match r.spec_read(data, pos) {
            Err(_) => {},
            Ok((v, p)) => {
                law_fix_items_split(r, data, p, (a - 1) as nat, b);
                match spec_read_fix_items(r, data, p, (a - 1) as nat) {
                    Err(_) => {},
                    Ok((ys, q)) => match spec_read_fix_items(r, data, q, b) {
                        Err(_) => {},
                        Ok((zs, q2)) => {
                            assert(seq![v] + (ys + zs) =~= (seq![v] + ys) + zs);
                        },
                    },
                }
            },
        }
    }
}

/// `r` reads the record of any value back as that value, wherever the
/// record stands, and stops just after it.
pub open spec fn reads_back<T: ItemWriter, R: ItemReader<Item = T>>(r: R) -> bool {
    forall|data: Seq<u8>, pos: int, v: T::V|
        #![trigger r.spec_read(data, pos), T::record_bytes(v)]
        fits(data, pos, T::record_bytes(v).len() as int) && data.subrange(pos, pos + T::record_bytes(v).len())
            == T::record_bytes(v) ==> r.spec_read(data, pos) == Ok::<(T::V, int), ReadError>(
            (v, pos + T::record_bytes(v).len()),
        )
}

proof fn lemma_records_cons<T: ItemWriter>(v: T::V, ws: Seq<T::V>)
    ensures
        records_bytes::<T>(seq![v] + ws) == T::record_bytes(v) + records_bytes::<T>(ws),
    decreases ws.len(),
{
    let vws = seq![v] + ws;
    if ws.len() == 0 {
        assert(vws.drop_last() =~= Seq::<T::V>::empty());
        assert(records_bytes::<T>(vws.drop_last()) == Seq::<u8>::empty());
        assert(vws.last() == v);
        assert(records_bytes::<T>(vws) == records_bytes::<T>(vws.drop_last()) + T::record_bytes(v));
        assert(records_bytes::<T>(ws) == Seq::<u8>::empty());
        assert(Seq::<u8>::empty() + T::record_bytes(v) =~= T::record_bytes(v) + Seq::<u8>::empty());
    } else {
        let init = ws.drop_last();
        lemma_records_cons::<T>(v, init);
        assert(vws.drop_last() =~= seq![v] + init);
        assert(vws.last() == ws.last());
        assert(records_bytes::<T>(vws) == records_bytes::<T>(seq![v] + init) + T::record_bytes(ws.last()));
        assert(records_bytes::<T>(ws) == records_bytes::<T>(init) + T::record_bytes(ws.last()));
        assert(T::record_bytes(v) + records_bytes::<T>(init) + T::record_bytes(ws.last()) =~= T::record_bytes(v)
            + (records_bytes::<T>(init) + T::record_bytes(ws.last())));
    }
}

proof fn lemma_records_read<T: ItemWriter, R: ItemReader<Item = T>>(r: R, data: Seq<u8>, pos: int, vs: Seq<T::V>)
    requires
        reads_back::<T, R>(r),
        fits(data, pos, records_bytes::<T>(vs).len() as int),
        data.subrange(pos, pos + records_bytes::<T>(vs).len()) == records_bytes::<T>(vs),
    ensures
        spec_read_fix_items(r, data, pos, vs.len()) == Ok::<(Seq<T::V>, int), ReadError>(
            (vs, pos + records_bytes::<T>(vs).len()),
        ),
    decreases vs.len(),
{
    if vs.len() == 0 {
        assert(vs =~= Seq::<T::V>::empty());
    } else {
        let v = vs[0];
        let ws = vs.drop_first();
        assert(seq![v] + ws =~= vs);
        lemma_records_cons::<T>(v, ws);
        let rb = T::record_bytes(v);
        let all = records_bytes::<T>(vs);
        assert(all == rb + records_bytes::<T>(ws));
        assert(data.subrange(pos, pos + rb.len()) =~= all.subrange(0, rb.len() as int));
        assert(all.subrange(0, rb.len() as int) =~= rb);
        assert(r.spec_read(data, pos) == Ok::<(T::V, int), ReadError>((v, pos + rb.len())));
        let q = pos + rb.len();
        assert(data.subrange(q, q + records_bytes::<T>(ws).len()) =~= all.subrange(
            rb.len() as int,
            all.len() as int,
        ));
        assert(all.subrange(rb.len() as int, all.len() as int) =~= records_bytes::<T>(ws));
        lemma_records_read::<T, R>(r, data, q, ws);
    }
}

/// Items written as a counted run with `write_items` are read back
/// unchanged by `read_items` with a reader of the same format, which stops
/// just after the last record, whatever bytes stand before or after the run.
pub proof fn law_items_write_read<T: ItemWriter, R: ItemReader<Item = T>>(
    r: R,
    prefix: Seq<u8>,
    vs: Seq<T::V>,
    rest: Seq<u8>,
)
    requires
        reads_back::<T, R>(r),
        vs.len() <= u32::MAX,
    ensures
        spec_read_items(r, prefix + items_bytes::<T>(vs) + rest, prefix.len() as int)
            == Ok::<(Seq<T::V>, int), ReadError>((vs, prefix.len() + items_bytes::<T>(vs).len() as int)),
{
    let n = vs.len() as u32;
    lemma_u32_le_roundtrip(n);
    let data = prefix + items_bytes::<T>(vs) + rest;
    let p = prefix.len() as int;
    let recs = records_bytes::<T>(vs);
    assert(data.subrange(p, p + 4) =~= u32_le_bytes(n));
    assert(data.subrange(p + 4, p + 4 + recs.len()) =~= recs);
    lemma_records_read::<T, R>(r, data, p + 4, vs);
}

/// `U32Item` reads back the words that `u32` values are written as.
pub proof fn law_u32_items_read_back()
    ensures
        reads_back::<u32, U32Item>(U32Item),
{
    assert forall|data: Seq<u8>, pos: int, v: u32|
        #![trigger U32Item.spec_read(data, pos), <u32 as ItemWriter>::record_bytes(v)]
        fits(data, pos, <u32 as ItemWriter>::record_bytes(v).len() as int) && data.subrange(
            pos,
            pos + <u32 as ItemWriter>::record_bytes(v).len(),
        ) == <u32 as ItemWriter>::record_bytes(v) implies U32Item.spec_read(data, pos) == Ok::<
        (u32, int),
        ReadError,
    >((v, pos + <u32 as ItemWriter>::record_bytes(v).len())) by {
        lemma_u32_le_roundtrip(v);
    }
}

} // verus!
