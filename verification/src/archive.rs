//! The output-file archive codec.
//!
//! Declared output files are bundled into a single POSIX-ustar stream inside
//! the cache directory on a miss, and restored from it on a hit.  The codec
//! here produces and reads that stream: for each file a 512-byte header
//! (name, mode in octal, size in octal, checksum) followed by the contents
//! padded to whole blocks, and two zero blocks at the end.  Reading an
//! archive back yields exactly the files that were written: contents and
//! mode bits byte for byte.

use crate::errors::Error;
use vstd::prelude::*;

verus! {

/// One archived file: its path as stored, its POSIX mode bits, and its
/// contents.
#[derive(Debug)]
pub struct ArchiveEntry {
    pub path: Vec<u8>,
    pub mode: u32,
    pub data: Vec<u8>,
}

/// The mathematical view of an `ArchiveEntry`.
#[verifier::ext_equal]
pub struct EntryView {
    pub path: Seq<u8>,
    pub mode: u32,
    pub data: Seq<u8>,
}

impl View for ArchiveEntry {
    type V = EntryView;

    open spec fn view(&self) -> EntryView {
        EntryView { path: self.path@, mode: self.mode, data: self.data@ }
    }
}

impl DeepView for ArchiveEntry {
    type V = EntryView;

    open spec fn deep_view(&self) -> EntryView {
        self@
    }
}

/// Eight to the `w`-th power: the first value that does not fit in `w` octal
/// digits.
pub open spec fn pow8(w: nat) -> nat
    decreases w,
{
    if w == 0 {
        1
    } else {
        8 * pow8((w - 1) as nat)
    }
}

/// A number as exactly `w` octal ASCII digits, most significant first,
/// zero-padded.
pub open spec fn octal_digits(n: nat, w: nat) -> Seq<u8>
    decreases w,
{
    if w == 0 {
        Seq::empty()
    } else {
        octal_digits(n / 8, (w - 1) as nat).push((0x30 + (n % 8)) as u8)
    }
}

/// The value of a run of octal ASCII digits.
pub open spec fn octal_val(s: Seq<u8>) -> nat
    decreases s.len(),
{
    if s.len() == 0 {
        0
    } else {
        octal_val(s.drop_last()) * 8 + (if 0x30 <= s.last() <= 0x37 {
            (s.last() - 0x30) as nat
        } else {
            0
        })
    }
}

/// Whether every byte is an octal ASCII digit.
pub open spec fn spec_is_octal(s: Seq<u8>) -> bool {
    forall|i: int| 0 <= i < s.len() ==> 0x30 <= #[trigger] s[i] <= 0x37
}

/// Fixed-width octal encoding is read back to the number it was written
/// from, for any number that fits the width.
pub proof fn lemma_octal_round_trip(n: nat, w: nat)
    requires
        n < pow8(w),
    ensures
        octal_digits(n, w).len() == w,
        spec_is_octal(octal_digits(n, w)),
        octal_val(octal_digits(n, w)) == n,
    decreases w,
{
    if w > 0 {
        assert(pow8(w) == 8 * pow8((w - 1) as nat));
        lemma_octal_round_trip(n / 8, (w - 1) as nat);
        let s = octal_digits(n, w);
        assert(s.drop_last() =~= octal_digits(n / 8, (w - 1) as nat));
        assert(s.last() == (0x30 + (n % 8)) as u8);
        assert(octal_val(s) == (n / 8) * 8 + n % 8);
    }
}

/// A run of zero bytes.
pub open spec fn zeros(n: nat) -> Seq<u8> {
    Seq::new(n, |i: int| 0u8)
}

/// The sum of a byte sequence, as the header checksum counts it.
pub open spec fn sum_bytes(s: Seq<u8>) -> nat
    decreases s.len(),
{
    if s.len() == 0 {
        0
    } else {
        sum_bytes(s.drop_last()) + s.last() as nat
    }
}

/// A byte sum is bounded by 255 per byte.
pub proof fn lemma_sum_bytes_bound(s: Seq<u8>)
    ensures
        sum_bytes(s) <= 255 * s.len(),
    decreases s.len(),
{
    if s.len() > 0 {
        lemma_sum_bytes_bound(s.drop_last());
    }
}

/// The length of a file's contents rounded up to whole blocks.
pub open spec fn pad512(n: nat) -> nat {
    ((n + 511) / 512) * 512
}

/// The checksum field while the checksum itself is being computed: eight
/// spaces.
pub open spec fn spaces8() -> Seq<u8> {
    Seq::new(8, |i: int| 0x20u8)
}

/// The ustar magic, `"ustar"` and a NUL.
pub open spec fn ustar_magic() -> Seq<u8> {
    seq![0x75u8, 0x73u8, 0x74u8, 0x61u8, 0x72u8, 0u8]
}

/// The ustar version field, `"00"`.
pub open spec fn ustar_version() -> Seq<u8> {
    seq![0x30u8, 0x30u8]
}

/// The 512-byte header with the given bytes in the checksum field: the name
/// NUL-padded to 100 bytes, mode as 7 octal digits and a NUL, zero uid and
/// gid, size as 11 octal digits and a NUL, zero mtime, the checksum field,
/// the plain-file type flag, an empty link name, the ustar magic and
/// version, and zeros to the end of the block.
pub open spec fn spec_header_with(path: Seq<u8>, mode: u32, size: nat, ck: Seq<u8>) -> Seq<u8> {
    path + zeros((100 - path.len()) as nat)  // name
    + octal_digits(mode as nat, 7) + seq![0u8]  // mode
    + octal_digits(0, 7) + seq![0u8]  // uid
    + octal_digits(0, 7) + seq![0u8]  // gid
    + octal_digits(size, 11) + seq![0u8]  // size
    + octal_digits(0, 11) + seq![0u8]  // mtime
    + ck  // checksum field
    + seq![0x30u8]  // typeflag: plain file
    + zeros(100)  // linkname
    + ustar_magic() + ustar_version() + zeros(247)
}

/// The header before its checksum is known.
pub open spec fn spec_pre_header(path: Seq<u8>, mode: u32, size: nat) -> Seq<u8> {
    spec_header_with(path, mode, size, spaces8())
}

/// The finished header: the checksum of the pre-header, as 6 octal digits, a
/// NUL and a space.
pub open spec fn spec_header(path: Seq<u8>, mode: u32, size: nat) -> Seq<u8> {
    spec_header_with(
        path,
        mode,
        size,
        octal_digits(sum_bytes(spec_pre_header(path, mode, size)), 6) + seq![0u8, 0x20u8],
    )
}

/// What makes an entry encodable: a name of 1 to 100 bytes without NULs,
/// mode bits that fit 7 octal digits, and contents whose size fits 11.
pub open spec fn spec_entry_wf(e: EntryView) -> bool {
    &&& 1 <= e.path.len() <= 100
    &&& forall|i: int| 0 <= i < e.path.len() ==> #[trigger] e.path[i] != 0
    &&& (e.mode as nat) < pow8(7)
    &&& e.data.len() < pow8(11)
}

/// Every entry is encodable.
pub open spec fn spec_entries_wf(entries: Seq<EntryView>) -> bool {
    forall|k: int| 0 <= k < entries.len() ==> spec_entry_wf(#[trigger] entries[k])
}

/// One entry on the stream: its header, its contents, and zero padding to a
/// whole block.
pub open spec fn spec_encode_entry(e: EntryView) -> Seq<u8> {
    spec_header(e.path, e.mode, e.data.len()) + e.data + zeros(
        (pad512(e.data.len()) - e.data.len()) as nat,
    )
}

/// The entries of the archive, in order.
pub open spec fn spec_encode_entries(entries: Seq<EntryView>) -> Seq<u8>
    decreases entries.len(),
{
    if entries.len() == 0 {
        Seq::empty()
    } else {
        spec_encode_entry(entries.first()) + spec_encode_entries(entries.drop_first())
    }
}

/// The whole archive: the entries followed by two zero blocks.
pub open spec fn spec_encode(entries: Seq<EntryView>) -> Seq<u8> {
    spec_encode_entries(entries) + zeros(1024)
}

/// Renders a number as exactly `w` octal digits.
fn octal_vec(n: u64, w: usize) -> (v: Vec<u8>)
    ensures
        v@ == octal_digits(n as nat, w as nat),
        v@.len() == w,
    decreases w,
{
    if w == 0 {
        let v: Vec<u8> = Vec::new();
        proof {
            assert(v@ =~= octal_digits(n as nat, 0));
        }
        v
    } else {
        let mut v = octal_vec(n / 8, w - 1);
        v.push(0x30 + (n % 8) as u8);
        v
    }
}

/// Appends `n` zero bytes to a buffer.
fn push_zeros(buf: &mut Vec<u8>, n: usize)
    ensures
        final(buf)@ == old(buf)@ + zeros(n as nat),
{
    let mut i: usize = 0;
    while i < n
        invariant
            i <= n,
            buf@ == old(buf)@ + zeros(i as nat),
        decreases n - i,
    {
        buf.push(0u8);
        proof {
            assert(old(buf)@ + zeros((i + 1) as nat) =~= (old(buf)@ + zeros(i as nat)).push(0u8));
        }
        i += 1;
    }
}

/// Appends a byte slice to a buffer.
fn push_bytes(buf: &mut Vec<u8>, bytes: &[u8])
    ensures
        final(buf)@ == old(buf)@ + bytes@,
{
    let mut i: usize = 0;
    while i < bytes.len()
        invariant
            i <= bytes.len(),
            buf@ == old(buf)@ + bytes@.take(i as int),
        decreases bytes.len() - i,
    {
        buf.push(bytes[i]);
        proof {
            assert(old(buf)@ + bytes@.take(i + 1 as int) =~= (old(buf)@ + bytes@.take(
                i as int,
            )).push(bytes@[i as int]));
        }
        i += 1;
    }
    proof {
        assert(bytes@.take(bytes@.len() as int) =~= bytes@);
    }
}

/// The sum of a header block with the checksum field counted as spaces.
fn checksum_of(block: &Vec<u8>) -> (s: u64)
    requires
        block@.len() == 512,
    ensures
        s == sum_bytes(block@.take(148) + spaces8() + block@.skip(156)),
{
    let ghost m = block@.take(148) + spaces8() + block@.skip(156);
    proof {
        assert(m.len() == 512);
    }
    let mut s: u64 = 0;
    let mut i: usize = 0;
    while i < 512
        invariant
            block@.len() == 512,
            m == block@.take(148) + spaces8() + block@.skip(156),
            i <= 512,
            s == sum_bytes(m.take(i as int)),
            s <= 255 * i,
        decreases 512 - i,
    {
        let b: u8 = if 148 <= i && i < 156 {
            0x20
        } else {
            block[i]
        };
        proof {
            assert(m[i as int] == b);
            assert(m.take(i + 1 as int).drop_last() =~= m.take(i as int));
            assert(m.take(i + 1 as int).last() == m[i as int]);
        }
        s = s + b as u64;
        i += 1;
    }
    proof {
        assert(m.take(512) =~= m);
    }
    s
}

/// Builds the 512-byte header for one file.
fn encode_header(path: &Vec<u8>, mode: u32, size: u64) -> (h: Vec<u8>)
    requires
        1 <= path@.len() <= 100,
        (mode as nat) < pow8(7),
        (size as nat) < pow8(11),
    ensures
        h@ == spec_header(path@, mode, size as nat),
        h@.len() == 512,
{
    let mut pre: Vec<u8> = Vec::new();
    push_bytes(&mut pre, path.as_slice());
    push_zeros(&mut pre, 100 - path.len());
    let mode_d = octal_vec(mode as u64, 7);
    push_bytes(&mut pre, mode_d.as_slice());
    pre.push(0u8);
    let zero7 = octal_vec(0, 7);
    push_bytes(&mut pre, zero7.as_slice());
    pre.push(0u8);
    push_bytes(&mut pre, zero7.as_slice());
    pre.push(0u8);
    let size_d = octal_vec(size, 11);
    push_bytes(&mut pre, size_d.as_slice());
    pre.push(0u8);
    let zero11 = octal_vec(0, 11);
    push_bytes(&mut pre, zero11.as_slice());
    pre.push(0u8);
    // checksum field: spaces while summing
    let ghost pre0 = pre@;
    let mut i: usize = 0;
    while i < 8
        invariant
            i <= 8,
            pre@ == pre0 + spaces8().take(i as int),
        decreases 8 - i,
    {
        pre.push(0x20u8);
        proof {
            assert(pre0 + spaces8().take((i + 1) as int) =~= (pre0 + spaces8().take(
                i as int,
            )).push(0x20u8));
        }
        i += 1;
    }
    proof {
        assert(spaces8().take(8) =~= spaces8());
    }
    pre.push(0x30u8);
    push_zeros(&mut pre, 100);
    let magic: [u8; 6] = [0x75, 0x73, 0x74, 0x61, 0x72, 0];
    push_bytes(&mut pre, magic.as_slice());
    pre.push(0x30u8);
    pre.push(0x30u8);
    push_zeros(&mut pre, 247);
    proof {
        assert(pre@ =~= spec_pre_header(path@, mode, size as nat));
    }
    let ck = checksum_of(&pre);
    proof {
        let prev = spec_pre_header(path@, mode, size as nat);
        assert(pre@.take(148) + spaces8() + pre@.skip(156) =~= prev);
        lemma_sum_bytes_bound(prev);
        lemma_pow8_vals();
        assert(sum_bytes(prev) < pow8(6));
    }
    let ck_d = octal_vec(ck, 6);
    let mut h: Vec<u8> = Vec::new();
    let mut i: usize = 0;
    while i < 148
        invariant
            i <= 148,
            pre@ == spec_pre_header(path@, mode, size as nat),
            pre@.len() == 512,
            h@ == pre@.take(i as int),
        decreases 148 - i,
    {
        h.push(pre[i]);
        proof {
            assert(pre@.take(i + 1 as int).drop_last() =~= pre@.take(i as int));
        }
        i += 1;
    }
    push_bytes(&mut h, ck_d.as_slice());
    h.push(0u8);
    h.push(0x20u8);
    let mut i: usize = 156;
    while i < 512
        invariant
            156 <= i <= 512,
            pre@ == spec_pre_header(path@, mode, size as nat),
            pre@.len() == 512,
            h@ == pre@.take(148) + octal_digits(sum_bytes(pre@.take(148) + spaces8() + pre@.skip(
                156,
            )), 6) + seq![0u8, 0x20u8] + pre@.subrange(156, i as int),
        decreases 512 - i,
    {
        h.push(pre[i]);
        proof {
            assert(pre@.subrange(156, i + 1 as int).drop_last() =~= pre@.subrange(156, i as int));
            assert((h@.drop_last()).push(pre@[i as int]) =~= h@);
        }
        i += 1;
    }
    proof {
        let prev = spec_pre_header(path@, mode, size as nat);
        assert(pre@.take(148) + spaces8() + pre@.skip(156) =~= prev);
        assert(pre@.subrange(156, 512) =~= prev.skip(156));
        let ckf = octal_digits(sum_bytes(prev), 6) + seq![0u8, 0x20u8];
        assert(h@ =~= prev.take(148) + ckf + prev.skip(156));
        lemma_header_checksum_splice(path@, mode, size as nat, ckf);
    }
    h
}

/// Replacing the checksum field of the pre-header with any 8 bytes gives the
/// header with that field, by the layout of the block.
proof fn lemma_header_checksum_splice(path: Seq<u8>, mode: u32, size: nat, ck: Seq<u8>)
    requires
        path.len() <= 100,
        ck.len() == 8,
    ensures
        spec_pre_header(path, mode, size).take(148) + ck + spec_pre_header(path, mode, size).skip(
            156,
        ) == spec_header_with(path, mode, size, ck),
        spec_header_with(path, mode, size, ck).len() == 512,
{
    lemma_octal_len(mode as nat, 7);
    lemma_octal_len(0, 7);
    lemma_octal_len(size, 11);
    lemma_octal_len(0, 11);
    let pre = spec_pre_header(path, mode, size);
    let with = spec_header_with(path, mode, size, ck);
    assert(pre.len() == 512);
    assert(with.len() == 512);
    assert(pre.take(148) + ck + pre.skip(156) =~= with);
}

/// The octal field widths used by the header, as plain numbers.
pub proof fn lemma_pow8_vals()
    ensures
        pow8(6) == 262144,
        pow8(7) == 2097152,
        pow8(11) == 8589934592,
{
    assert(pow8(0) == 1);
    assert(pow8(1) == 8);
    assert(pow8(2) == 64);
    assert(pow8(3) == 512);
    assert(pow8(4) == 4096);
    assert(pow8(5) == 32768);
    assert(pow8(6) == 262144);
    assert(pow8(7) == 2097152);
    assert(pow8(8) == 16777216);
    assert(pow8(9) == 134217728);
    assert(pow8(10) == 1073741824);
    assert(pow8(11) == 8589934592);
}

/// Octal fields have exactly their width.
pub proof fn lemma_octal_len(n: nat, w: nat)
    ensures
        octal_digits(n, w).len() == w,
    decreases w,
{
    if w > 0 {
        lemma_octal_len(n / 8, (w - 1) as nat);
    }
}

/// Encodes the declared output files into one archive stream.  Fails when an
/// entry cannot be represented: an empty or over-long name, a name with a
/// NUL byte, mode bits or a size that do not fit their octal fields.
pub fn encode_archive(entries: &Vec<ArchiveEntry>) -> (r: Result<Vec<u8>, Error>)
    ensures
        r is Ok <==> spec_entries_wf(entries.deep_view()),
        r matches Ok(v) ==> v@ == spec_encode(entries.deep_view()),
        r matches Err(e) ==> e matches Error::ArchiveError(_),
{
    let ghost evs = entries.deep_view();
    let mut buf: Vec<u8> = Vec::new();
    let mut k: usize = 0;
    while k < entries.len()
        invariant
            evs == entries.deep_view(),
            k <= entries.len(),
            buf@ == spec_encode_entries(evs.take(k as int)),
            forall|e: int| 0 <= e < k ==> spec_entry_wf(#[trigger] evs[e]),
        decreases entries.len() - k,
    {
        let entry = &entries[k];
        let ok_path = entry.path.len() >= 1 && entry.path.len() <= 100 && !has_zero(&entry.path);
        proof {
            lemma_pow8_vals();
        }
        let ok_mode = (entry.mode as u64) < 2097152u64;
        let ok_size = (entry.data.len() as u64) < 8589934592u64;
        if !(ok_path && ok_mode && ok_size) {
            proof {
                assert(!spec_entry_wf(evs[k as int]));
            }
            return Err(Error::ArchiveError(String::new()));
        }
        let h = encode_header(&entry.path, entry.mode, entry.data.len() as u64);
        let ghost buf0 = buf@;
        push_bytes(&mut buf, h.as_slice());
        push_bytes(&mut buf, entry.data.as_slice());
        let pad = (512 - (entry.data.len() % 512)) % 512;
        proof {
            assert(pad == pad512(entry.data@.len() as nat) - entry.data@.len());
        }
        push_zeros(&mut buf, pad);
        proof {
            assert(buf@ =~= buf0 + spec_encode_entry(evs[k as int]));
            lemma_encode_entries_snoc(evs.take(k + 1 as int));
            assert(evs.take(k + 1 as int).drop_last() =~= evs.take(k as int));
            assert(evs.take(k + 1 as int).last() == evs[k as int]);
            assert(buf@ =~= spec_encode_entries(evs.take(k + 1 as int)));
        }
        k += 1;
    }
    proof {
        assert(evs.take(evs.len() as int) =~= evs);
    }
    push_zeros(&mut buf, 1024);
    Ok(buf)
}

/// Appending one entry to an encoded run appends its bytes.
proof fn lemma_encode_entries_snoc(entries: Seq<EntryView>)
    requires
        entries.len() >= 1,
    ensures
        spec_encode_entries(entries) == spec_encode_entries(entries.drop_last())
            + spec_encode_entry(entries.last()),
    decreases entries.len(),
{
    if entries.len() == 1 {
        assert(entries.drop_first() =~= Seq::<EntryView>::empty());
        assert(entries.drop_last() =~= Seq::<EntryView>::empty());
        assert(entries.first() == entries.last());
        assert(spec_encode_entries(entries) =~= spec_encode_entries(entries.drop_last())
            + spec_encode_entry(entries.last()));
    } else {
        lemma_encode_entries_snoc(entries.drop_first());
        assert(entries.drop_first().drop_last() =~= entries.drop_last().drop_first());
        assert(entries.drop_first().last() == entries.last());
        assert(entries.drop_last().first() == entries.first());
        assert(entries.drop_last().len() >= 1);
        assert(spec_encode_entries(entries) =~= spec_encode_entries(entries.drop_last())
            + spec_encode_entry(entries.last()));
    }
}

/// Whether a byte string holds a NUL.
fn has_zero(v: &Vec<u8>) -> (r: bool)
    ensures
        r == exists|i: int| 0 <= i < v@.len() && #[trigger] v@[i] == 0,
{
    let mut i: usize = 0;
    while i < v.len()
        invariant
            i <= v@.len(),
            forall|j: int| 0 <= j < i ==> #[trigger] v@[j] != 0,
        decreases v@.len() - i,
    {
        if v[i] == 0 {
            return true;
        }
        i += 1;
    }
    false
}

/// The stored name's length: the bytes before the first NUL, or the whole
/// field.
pub open spec fn spec_name_len(s: Seq<u8>) -> nat
    decreases s.len(),
{
    if s.len() == 0 {
        0
    } else if s.first() == 0 {
        0
    } else {
        1 + spec_name_len(s.drop_first())
    }
}

/// The name length is the index of the first NUL.
pub proof fn lemma_name_len(s: Seq<u8>, n: int)
    requires
        0 <= n <= s.len(),
        forall|k: int| 0 <= k < n ==> #[trigger] s[k] != 0,
        n == s.len() || s[n] == 0,
    ensures
        spec_name_len(s) == n,
    decreases n,
{
    if n == 0 {
    } else {
        assert(s[0] != 0);
        lemma_name_len(s.drop_first(), n - 1);
    }
}

/// A run of octal digits stays below eight to its width.
pub proof fn lemma_octal_val_bound(s: Seq<u8>)
    ensures
        octal_val(s) < pow8(s.len()),
    decreases s.len(),
{
    if s.len() > 0 {
        lemma_octal_val_bound(s.drop_last());
        assert(pow8(s.len()) == 8 * pow8((s.len() - 1) as nat));
    }
}

/// What a 512-byte header means, if it is sound: the stored name, the mode
/// bits and the contents size.  A header is refused when its name is empty,
/// a numeric field is not octal or unterminated, its checksum does not match
/// the block, its type flag is not a plain file's, or the magic is wrong.
pub open spec fn spec_parse_header(h: Seq<u8>) -> Option<(Seq<u8>, u32, nat)> {
    if h.len() != 512 {
        None
    } else {
        let nlen = spec_name_len(h.take(100));
        let modef = h.subrange(100, 107);
        let sizef = h.subrange(124, 135);
        let ckf = h.subrange(148, 154);
        if nlen >= 1 && spec_is_octal(modef) && h[107] == 0 && spec_is_octal(sizef) && h[135] == 0
            && spec_is_octal(ckf) && h[154] == 0 && h[155] == 0x20 && h[156] == 0x30 && h.subrange(
            257,
            263,
        ) == ustar_magic() && h.subrange(263, 265) == ustar_version() && octal_val(ckf)
            == sum_bytes(h.take(148) + spaces8() + h.skip(156)) {
            Some((h.take(nlen as int), octal_val(modef) as u32, octal_val(sizef)))
        } else {
            None
        }
    }
}

/// What a whole archive stream means: the entries in order, each a sound
/// header block followed by its contents padded to whole blocks, ended by a
/// block that starts with a NUL.  `None` is a malformed stream.
pub open spec fn spec_decode(bytes: Seq<u8>) -> Option<Seq<EntryView>>
    decreases bytes.len(),
{
    if bytes.len() < 512 {
        None
    } else if bytes[0] == 0 {
        Some(Seq::empty())
    } else {
        match spec_parse_header(bytes.take(512)) {
            None => None,
            Some((path, mode, size)) => {
                if bytes.len() < 512 + pad512(size) {
                    None
                } else {
                    match spec_decode(bytes.skip(512 + pad512(size) as int)) {
                        None => None,
                        Some(rest) => Some(
                            seq![
                                EntryView {
                                    path: path,
                                    mode: mode,
                                    data: bytes.subrange(512, 512 + size as int),
                                },
                            ] + rest,
                        ),
                    }
                }
            },
        }
    }
}

/// Reads a fixed-width octal field; refuses a non-digit.
fn parse_octal(h: &Vec<u8>, start: usize, w: usize) -> (r: Option<u64>)
    requires
        start + w <= h@.len(),
        w <= 12,
    ensures
        r matches Some(v) ==> spec_is_octal(h@.subrange(start as int, (start + w) as int)) && v
            == octal_val(h@.subrange(start as int, (start + w) as int)),
        r is None ==> !spec_is_octal(h@.subrange(start as int, (start + w) as int)),
{
    let ghost field = h@.subrange(start as int, (start + w) as int);
    proof {
        assert(h.len() == h@.len());
    }
    let mut acc: u64 = 0;
    let mut k: usize = 0;
    while k < w
        invariant
            start + w <= h@.len(),
            h@.len() <= usize::MAX,
            w <= 12,
            field == h@.subrange(start as int, (start + w) as int),
            k <= w,
            spec_is_octal(field.take(k as int)),
            acc == octal_val(field.take(k as int)),
        decreases w - k,
    {
        let b = h[start + k];
        proof {
            assert(field[k as int] == b);
        }
        if b < 0x30 || b > 0x37 {
            proof {
                assert(field[k as int] == b);
            }
            return None;
        }
        proof {
            lemma_octal_val_bound(field.take(k as int));
            lemma_pow8_monotone(field.take(k as int).len() as nat, 11);
            lemma_pow8_vals();
            assert(field.take((k + 1) as int).drop_last() =~= field.take(k as int));
            assert(field.take((k + 1) as int).last() == field[k as int]);
        }
        acc = acc * 8 + (b - 0x30) as u64;
        k += 1;
    }
    proof {
        assert(field.take(w as int) =~= field);
    }
    Some(acc)
}

/// Powers of eight grow with the exponent.
pub proof fn lemma_pow8_monotone(a: nat, b: nat)
    requires
        a <= b,
    ensures
        pow8(a) <= pow8(b),
    decreases b,
{
    if a < b {
        lemma_pow8_monotone(a, (b - 1) as nat);
        assert(pow8(b) == 8 * pow8((b - 1) as nat));
    }
}

/// Reads one header block; `None` is a malformed header.
fn parse_header(h: &Vec<u8>) -> (r: Option<(Vec<u8>, u32, u64)>)
    requires
        h@.len() == 512,
    ensures
        r matches Some(t) ==> spec_parse_header(h@) == Some((t.0@, t.1, t.2 as nat)),
        r is None ==> spec_parse_header(h@) is None,
{
    // the stored name runs to the first NUL
    let mut nlen: usize = 0;
    while nlen < 100 && h[nlen] != 0
        invariant
            h@.len() == 512,
            nlen <= 100,
            forall|k: int| 0 <= k < nlen ==> #[trigger] h@.take(100)[k] != 0,
        decreases 100 - nlen,
    {
        nlen += 1;
    }
    proof {
        lemma_name_len(h@.take(100), nlen as int);
    }
    if nlen == 0 {
        return None;
    }
    let mut path: Vec<u8> = Vec::new();
    let mut k: usize = 0;
    while k < nlen
        invariant
            h@.len() == 512,
            nlen <= 100,
            k <= nlen,
            path@ == h@.take(nlen as int).take(k as int),
        decreases nlen - k,
    {
        path.push(h[k]);
        proof {
            assert(h@.take(nlen as int).take((k + 1) as int).drop_last() =~= h@.take(
                nlen as int,
            ).take(k as int));
        }
        k += 1;
    }
    proof {
        assert(h@.take(nlen as int).take(nlen as int) =~= h@.take(nlen as int));
    }

    let mode = match parse_octal(h, 100, 7) {
        Some(m) => m,
        None => {
            return None;
        },
    };
    let size = match parse_octal(h, 124, 11) {
        Some(s) => s,
        None => {
            return None;
        },
    };
    let ck = match parse_octal(h, 148, 6) {
        Some(c) => c,
        None => {
            return None;
        },
    };
    if h[107] != 0 || h[135] != 0 || h[154] != 0 || h[155] != 0x20 || h[156] != 0x30 {
        return None;
    }
    if h[257] != 0x75 || h[258] != 0x73 || h[259] != 0x74 || h[260] != 0x61 || h[261] != 0x72 || h[262]
        != 0 || h[263] != 0x30 || h[264] != 0x30 {
        proof {
            if h@.subrange(257, 263) == ustar_magic() && h@.subrange(263, 265) == ustar_version() {
                assert(h@[257] == ustar_magic()[0]);
                assert(h@[258] == ustar_magic()[1]);
                assert(h@[259] == ustar_magic()[2]);
                assert(h@[260] == ustar_magic()[3]);
                assert(h@[261] == ustar_magic()[4]);
                assert(h@[262] == ustar_magic()[5]);
                assert(h@[263] == ustar_version()[0]);
                assert(h@[264] == ustar_version()[1]);
            }
        }
        return None;
    }
    proof {
        assert(h@.subrange(257, 263) =~= ustar_magic());
        assert(h@.subrange(263, 265) =~= ustar_version());
    }
    let want = checksum_of(h);
    if ck != want {
        return None;
    }
    proof {
        lemma_octal_val_bound(h@.subrange(100, 107));
        lemma_pow8_vals();
    }
    Some((path, mode as u32, size))
}

/// Decodes an archive stream back into its files.  Succeeds exactly on the
/// streams the encoder produces, up to ignored padding: every header sound,
/// every content run complete, a terminating zero block.
pub fn decode_archive(bytes: &[u8]) -> (r: Result<Vec<ArchiveEntry>, Error>)
    ensures
        r is Ok <==> spec_decode(bytes@) is Some,
        r matches Ok(v) ==> Some(v.deep_view()) == spec_decode(bytes@),
        r matches Err(e) ==> e matches Error::ArchiveError(_),
{
    let mut out: Vec<ArchiveEntry> = Vec::new();
    let mut pos: usize = 0;
    proof {
        assert(bytes.len() == bytes@.len());
        assert(bytes@.skip(0) =~= bytes@);
        if spec_decode(bytes@) is Some {
            let whole = spec_decode(bytes@)->Some_0;
            assert(out.deep_view() + whole =~= whole);
        }
    }
    loop
        invariant
            pos <= bytes@.len(),
            spec_decode(bytes@) == (match spec_decode(bytes@.skip(pos as int)) {
                Some(rest) => Some(out.deep_view() + rest),
                None => None::<Seq<EntryView>>,
            }),
        decreases bytes@.len() - pos,
    {
        let ghost rem = bytes@.skip(pos as int);
        proof {
            assert(bytes.len() == bytes@.len());
        }
        if bytes.len() - pos < 512 {
            return Err(Error::ArchiveError(String::new()));
        }
        let mut block: Vec<u8> = Vec::new();
        let mut k: usize = 0;
        while k < 512
            invariant
                pos + 512 <= bytes@.len(),
                bytes@.len() <= usize::MAX,
                k <= 512,
                block@ == bytes@.subrange(pos as int, (pos + k) as int),
            decreases 512 - k,
        {
            block.push(bytes[pos + k]);
            proof {
                assert(bytes@.subrange(pos as int, (pos + k + 1) as int).drop_last() =~= bytes@
                    .subrange(pos as int, (pos + k) as int));
            }
            k += 1;
        }
        proof {
            assert(block@ =~= rem.take(512));
            assert(rem[0] == block@[0]);
        }
        if block[0] == 0 {
            proof {
                assert(spec_decode(rem) == Some(Seq::<EntryView>::empty()));
                assert(out.deep_view() + Seq::<EntryView>::empty() =~= out.deep_view());
            }
            return Ok(out);
        }
        let (path, mode, size) = match parse_header(&block) {
            Some(t) => t,
            None => {
                return Err(Error::ArchiveError(String::new()));
            },
        };
        proof {
            lemma_octal_val_bound(block@.subrange(124, 135));
            lemma_pow8_vals();
            assert((size as nat) < pow8(11));
        }
        let padded: u64 = ((size + 511) / 512) * 512;
        proof {
            assert(padded == pad512(size as nat));
        }
        if ((bytes.len() - pos - 512) as u64) < padded {
            proof {
                assert(rem.len() < 512 + pad512(size as nat));
            }
            return Err(Error::ArchiveError(String::new()));
        }
        let data_start = pos + 512;
        let size_us = size as usize;
        let mut data: Vec<u8> = Vec::new();
        let mut k: usize = 0;
        while k < size_us
            invariant
                data_start + size_us <= bytes@.len(),
                bytes@.len() <= usize::MAX,
                k <= size_us,
                data@ == bytes@.subrange(data_start as int, (data_start + k) as int),
            decreases size_us - k,
        {
            data.push(bytes[data_start + k]);
            proof {
                assert(bytes@.subrange(data_start as int, (data_start + k + 1) as int).drop_last()
                    =~= bytes@.subrange(data_start as int, (data_start + k) as int));
            }
            k += 1;
        }
        proof {
            assert(data@ =~= rem.subrange(512, 512 + size as int));
        }
        let ghost out_before = out.deep_view();
        let ghost entry_v = EntryView { path: path@, mode: mode, data: data@ };
        out.push(ArchiveEntry { path, mode, data });
        let new_pos = pos + 512 + (padded as usize);
        proof {
            assert(out.deep_view() =~= out_before.push(entry_v));
            assert(bytes@.skip(new_pos as int) =~= rem.skip(512 + pad512(size as nat) as int));
            assert(spec_decode(rem) == (match spec_decode(bytes@.skip(new_pos as int)) {
                Some(rest) => Some(seq![entry_v] + rest),
                None => None::<Seq<EntryView>>,
            }));
            if spec_decode(bytes@.skip(new_pos as int)) is Some {
                let rest = spec_decode(bytes@.skip(new_pos as int))->Some_0;
                assert(out_before + (seq![entry_v] + rest) =~= out_before.push(entry_v) + rest);
            }
        }
        pos = new_pos;
    }
}

/// Where each field of the header block lies.
proof fn lemma_header_fields(path: Seq<u8>, mode: u32, size: nat, ck: Seq<u8>)
    requires
        path.len() <= 100,
        ck.len() == 8,
    ensures
        spec_header_with(path, mode, size, ck).len() == 512,
        spec_header_with(path, mode, size, ck).take(100) == path + zeros((100 - path.len()) as nat),
        spec_header_with(path, mode, size, ck).subrange(100, 107) == octal_digits(mode as nat, 7),
        spec_header_with(path, mode, size, ck)[107] == 0,
        spec_header_with(path, mode, size, ck).subrange(124, 135) == octal_digits(size, 11),
        spec_header_with(path, mode, size, ck)[135] == 0,
        spec_header_with(path, mode, size, ck).subrange(148, 156) == ck,
        spec_header_with(path, mode, size, ck)[156] == 0x30,
        spec_header_with(path, mode, size, ck).subrange(257, 263) == ustar_magic(),
        spec_header_with(path, mode, size, ck).subrange(263, 265) == ustar_version(),
    {
    lemma_octal_len(mode as nat, 7);
    lemma_octal_len(0, 7);
    lemma_octal_len(size, 11);
    lemma_octal_len(0, 11);
    let h = spec_header_with(path, mode, size, ck);
    assert(h.len() == 512);
    assert(h.take(100) =~= path + zeros((100 - path.len()) as nat));
    assert(h.subrange(100, 107) =~= octal_digits(mode as nat, 7));
    assert(h.subrange(124, 135) =~= octal_digits(size, 11));
    assert(h.subrange(148, 156) =~= ck);
    assert(h.subrange(257, 263) =~= ustar_magic());
    assert(h.subrange(263, 265) =~= ustar_version());
}

/// Reading back a header the encoder wrote gives the name, mode and size it
/// was written from.
pub proof fn lemma_parse_header_round_trip(path: Seq<u8>, mode: u32, size: nat)
    requires
        1 <= path.len() <= 100,
        forall|i: int| 0 <= i < path.len() ==> #[trigger] path[i] != 0,
        (mode as nat) < pow8(7),
        size < pow8(11),
    ensures
        spec_parse_header(spec_header(path, mode, size)) == Some((path, mode, size)),
{
    let pre = spec_pre_header(path, mode, size);
    let ckv = sum_bytes(pre);
    let ckf = octal_digits(ckv, 6) + seq![0u8, 0x20u8];
    lemma_pow8_vals();
    lemma_header_fields(path, mode, size, spaces8());
    lemma_sum_bytes_bound(pre);
    lemma_octal_round_trip(ckv, 6);
    assert(ckf.len() == 8);
    lemma_header_fields(path, mode, size, ckf);
    let h = spec_header(path, mode, size);
    // the name runs to the first NUL: exactly the stored path
    assert forall|k: int| 0 <= k < path.len() implies #[trigger] h.take(100)[k] != 0 by {
        assert(h.take(100)[k] == path[k]);
    }
    if path.len() < 100 {
        assert(h.take(100)[path.len() as int] == zeros((100 - path.len()) as nat)[0]);
    }
    lemma_name_len(h.take(100), path.len() as int);
    assert(h.take(path.len() as int) =~= path);
    // the numeric fields read back
    lemma_octal_round_trip(mode as nat, 7);
    lemma_octal_round_trip(size, 11);
    // the checksum recomputed over the block with a spaced-out field is the
    // checksum that was written
    lemma_header_checksum_splice(path, mode, size, ckf);
    lemma_header_checksum_splice(path, mode, size, spaces8());
    assert(h == pre.take(148) + ckf + pre.skip(156));
    assert(h.take(148) =~= pre.take(148));
    assert(h.skip(156) =~= pre.skip(156));
    assert(h.take(148) + spaces8() + h.skip(156) =~= pre);
    assert(h.subrange(148, 154) =~= octal_digits(ckv, 6));
    assert(h[154] == ckf[6] && h[155] == ckf[7]);
    assert(spec_parse_header(h) == Some((path, mode, size)));
}

/// Round trip of the archive: reading a stream the encoder wrote yields
/// exactly the files that were written — same names, same mode bits, same
/// contents, in the same order.
#[verifier::rlimit(100)]
pub proof fn lemma_archive_round_trip(entries: Seq<EntryView>)
    requires
        spec_entries_wf(entries),
    ensures
        spec_decode(spec_encode(entries)) == Some(entries),
    decreases entries.len(),
{
    let bytes = spec_encode(entries);
    if entries.len() == 0 {
        assert(bytes =~= zeros(1024));
        assert(bytes.len() == 1024);
        assert(bytes[0] == 0);
        assert(spec_decode(bytes) == Some(Seq::<EntryView>::empty()));
        assert(entries =~= Seq::<EntryView>::empty());
    } else {
        let e = entries.first();
        let rest = entries.drop_first();
        assert(spec_entry_wf(e)) by {
            assert(entries[0] == e);
        }
        assert(spec_entries_wf(rest)) by {
            assert forall|k: int| 0 <= k < rest.len() implies spec_entry_wf(
                #[trigger] rest[k],
            ) by {
                assert(rest[k] == entries[k + 1]);
            }
        }
        lemma_archive_round_trip(rest);
        let dlen = e.data.len();
        let header = spec_header(e.path, e.mode, dlen);
        let padding = zeros((pad512(dlen) - dlen) as nat);
        lemma_pow8_vals();
        lemma_octal_len(sum_bytes(spec_pre_header(e.path, e.mode, dlen)), 6);
        lemma_header_checksum_splice(
            e.path,
            e.mode,
            dlen,
            octal_digits(sum_bytes(spec_pre_header(e.path, e.mode, dlen)), 6) + seq![0u8, 0x20u8],
        );
        assert(header.len() == 512);
        assert(bytes =~= header + e.data + padding + spec_encode(rest));
        assert(bytes[0] == header[0]);
        assert(header[0] == e.path[0]) by {
            lemma_header_fields(
                e.path,
                e.mode,
                dlen,
                octal_digits(sum_bytes(spec_pre_header(e.path, e.mode, dlen)), 6) + seq![
                    0u8,
                    0x20u8,
                ],
            );
            assert(header.take(100)[0] == (e.path + zeros((100 - e.path.len()) as nat))[0]);
        }
        assert(bytes[0] != 0);
        assert(bytes.len() >= 512);
        assert(bytes.take(512) =~= header);
        lemma_parse_header_round_trip(e.path, e.mode, dlen);
        assert(spec_parse_header(bytes.take(512)) == Some((e.path, e.mode, dlen)));
        assert(bytes.len() >= 512 + pad512(dlen));
        assert(bytes.subrange(512, 512 + dlen as int) =~= e.data);
        assert(bytes.skip(512 + pad512(dlen) as int) =~= spec_encode(rest));
        assert(spec_decode(spec_encode(rest)) == Some(rest));
        assert(seq![EntryView { path: e.path, mode: e.mode, data: e.data }] + rest =~= entries);
        assert(EntryView { path: e.path, mode: e.mode, data: e.data } =~= e);
        assert(spec_decode(bytes) == Some(entries));
    }
}

} // verus!
