use vstd::prelude::*;
use vstd::utf8::encode_utf8;
use crate::text::push_char;

verus! {

/// Longest edge of a library-grid thumbnail, in pixels.
pub const THUMB_SIZE: u32 = 512;

pub const FNV_OFFSET: u64 = 0xcbf2_9ce4_8422_2325;

pub const FNV_PRIME: u64 = 0x0000_0100_0000_01b3;

/// One FNV-1a round: xor the byte in, multiply by the prime (mod 2^64).
pub open spec fn fnv1a_step(h: u64, b: u8) -> u64 {
    (h ^ (b as u64)).wrapping_mul(FNV_PRIME)
}

/// FNV-1a state after feeding `bytes`, starting from state `h`.
pub open spec fn fnv1a(h: u64, bytes: Seq<u8>) -> u64
    decreases bytes.len(),
{
    if bytes.len() == 0 {
        h
    } else {
        fnv1a_step(fnv1a(h, bytes.drop_last()), bytes.last())
    }
}

/// Feeding two byte strings one after the other is feeding their
/// concatenation.
pub proof fn lemma_fnv1a_append(h: u64, a: Seq<u8>, b: Seq<u8>)
    ensures
        fnv1a(fnv1a(h, a), b) == fnv1a(h, a + b),
    decreases b.len(),
{
    if b.len() == 0 {
        assert(a + b =~= a);
    } else {
        lemma_fnv1a_append(h, a, b.drop_last());
        assert((a + b).drop_last() =~= a + b.drop_last());
        assert((a + b).last() == b.last());
    }
}

/// Continue an FNV-1a hash with `bytes`.
pub fn fnv1a_feed(h: u64, bytes: &[u8]) -> (r: u64)
    ensures
        r == fnv1a(h, bytes@),
{
    let mut acc = h;
    let mut i: usize = 0;
    while i < bytes.len()
        invariant
            i <= bytes@.len(),
            acc == fnv1a(h, bytes@.subrange(0, i as int)),
        decreases bytes@.len() - i,
    {
        assert(bytes@.subrange(0, i + 1).drop_last() =~= bytes@.subrange(0, i as int));
        acc = (acc ^ (bytes[i] as u64)).wrapping_mul(FNV_PRIME);
        i = i + 1;
    }
    assert(bytes@.subrange(0, i as int) =~= bytes@);
    acc
}

/// Little-endian bytes of a `u32` (`u32::to_le_bytes`).
pub open spec fn le_bytes_u32(x: u32) -> Seq<u8> {
    Seq::new(4, |i: int| (x >> ((8 * i) as u32)) as u8)
}

/// Little-endian bytes of a `u64` (`u64::to_le_bytes`).
pub open spec fn le_bytes_u64(x: u64) -> Seq<u8> {
    Seq::new(8, |i: int| (x >> ((8 * i) as u64)) as u8)
}

pub fn u32_le_bytes(x: u32) -> (v: Vec<u8>)
    ensures
        v@ == le_bytes_u32(x),
{
    let mut v: Vec<u8> = Vec::new();
    let mut i: u32 = 0;
    while i < 4
        invariant
            i <= 4,
            v@ == le_bytes_u32(x).subrange(0, i as int),
        decreases 4 - i,
    {
        v.push((x >> (8 * i)) as u8);
        i = i + 1;
        assert(v@ =~= le_bytes_u32(x).subrange(0, i as int));
    }
    assert(le_bytes_u32(x).subrange(0, 4) =~= le_bytes_u32(x));
    v
}

pub fn u64_le_bytes(x: u64) -> (v: Vec<u8>)
    ensures
        v@ == le_bytes_u64(x),
{
    let mut v: Vec<u8> = Vec::new();
    let mut i: u64 = 0;
    while i < 8
        invariant
            i <= 8,
            v@ == le_bytes_u64(x).subrange(0, i as int),
        decreases 8 - i,
    {
        v.push((x >> (8 * i)) as u8);
        i = i + 1;
        assert(v@ =~= le_bytes_u64(x).subrange(0, i as int));
    }
    assert(le_bytes_u64(x).subrange(0, 8) =~= le_bytes_u64(x));
    v
}

/// What the file system reports about a photo file: its size and, when
/// known, its modification time in whole seconds since the Unix epoch.
pub struct FileStamp {
    pub len: u64,
    pub modified_secs: Option<u64>,
}

/// The bytes a thumbnail key is computed from: the photo path, the
/// thumbnail size, then the file size and modification time where known.
pub open spec fn content_key_bytes(path: Seq<char>, stamp: Option<FileStamp>) -> Seq<u8> {
    let base = encode_utf8(path) + le_bytes_u32(THUMB_SIZE);
    match stamp {
        None => base,
        Some(st) => match st.modified_secs {
            None => base + le_bytes_u64(st.len),
            Some(secs) => base + le_bytes_u64(st.len) + le_bytes_u64(secs),
        },
    }
}

/// Deterministic FNV-1a key of a photo file's identity. Row ids are reused
/// after deletes, so thumbnails are keyed by content, not by id alone.
pub fn content_key(photo_path: &str, stamp: Option<FileStamp>) -> (k: u64)
    ensures
        k == fnv1a(FNV_OFFSET, content_key_bytes(photo_path@, stamp)),
{
    let p = photo_path.as_bytes();
    let mut h = fnv1a_feed(FNV_OFFSET, p);
    let sz = u32_le_bytes(THUMB_SIZE);
    h = fnv1a_feed(h, sz.as_slice());
    proof {
        lemma_fnv1a_append(FNV_OFFSET, p@, sz@);
    }
    let ghost base = p@ + sz@;
    match stamp {
        None => {},
        Some(st) => {
            let lb = u64_le_bytes(st.len);
            h = fnv1a_feed(h, lb.as_slice());
            proof {
                lemma_fnv1a_append(FNV_OFFSET, base, lb@);
            }
            match st.modified_secs {
                None => {},
                Some(secs) => {
                    let sb = u64_le_bytes(secs);
                    h = fnv1a_feed(h, sb.as_slice());
                    proof {
                        lemma_fnv1a_append(FNV_OFFSET, base + lb@, sb@);
                    }
                },
            }
        },
    }
    h
}

// ---- names ----

pub open spec fn digit_char(d: int) -> char {
    (48 + d) as char
}

/// Decimal digits of a natural number, most significant first.
pub open spec fn decimal_digits(n: nat) -> Seq<char>
    decreases n,
{
    if n < 10 {
        seq![digit_char(n as int)]
    } else {
        decimal_digits(n / 10).push(digit_char((n % 10) as int))
    }
}

/// `n` as Rust's `Display` writes an integer.
pub open spec fn decimal(n: int) -> Seq<char> {
    if n < 0 {
        seq!['-'] + decimal_digits((-n) as nat)
    } else {
        decimal_digits(n as nat)
    }
}

pub open spec fn hex_char(d: int) -> char {
    if d < 10 {
        (48 + d) as char
    } else {
        (87 + d) as char
    }
}

/// `k` as sixteen lower-case hexadecimal digits (`{:016x}`).
pub open spec fn hex16(k: u64) -> Seq<char> {
    Seq::new(16, |i: int| hex_char(((k >> ((60 - 4 * i) as u64)) & 0xfu64) as int))
}

/// Append the decimal digits of `n`.
pub fn push_decimal_digits(s: &mut String, n: u64)
    ensures
        final(s)@ == old(s)@ + decimal_digits(n as nat),
    decreases n,
{
    if n >= 10 {
        push_decimal_digits(s, n / 10);
    }
    let d = (n % 10) as u8;
    push_char(s, (48u8 + d) as char);
    assert(decimal_digits(n as nat) == if n < 10 {
        seq![digit_char(n as int)]
    } else {
        decimal_digits((n / 10) as nat).push(digit_char((n % 10) as int))
    });
}

/// Append `n` in decimal, with a leading '-' when negative.
pub fn push_decimal(s: &mut String, n: i64)
    ensures
        final(s)@ == old(s)@ + decimal(n as int),
{
    if n < 0 {
        push_char(s, '-');
        let m: u64 = ((-(n + 1)) as u64) + 1;
        push_decimal_digits(s, m);
        assert(old(s)@ + decimal(n as int) =~= old(s)@.push('-') + decimal_digits(m as nat));
    } else {
        push_decimal_digits(s, n as u64);
    }
}

/// Append `k` as sixteen lower-case hexadecimal digits.
pub fn push_hex16(s: &mut String, k: u64)
    ensures
        final(s)@ == old(s)@ + hex16(k),
{
    let ghost start = s@;
    let mut i: u64 = 0;
    while i < 16
        invariant
            i <= 16,
            s@ == start + hex16(k).subrange(0, i as int),
        decreases 16 - i,
    {
        let sh: u64 = 60 - 4 * i;
        let nib: u64 = (k >> sh) & 0xf;
        assert(nib < 16) by (bit_vector)
            requires
                nib == (k >> sh) & 0xf,
        ;
        let d = nib as u8;
        let c = if d < 10 {
            (48u8 + d) as char
        } else {
            (87u8 + d) as char
        };
        push_char(s, c);
        i = i + 1;
        assert(s@ =~= start + hex16(k).subrange(0, i as int));
    }
    assert(hex16(k).subrange(0, 16) =~= hex16(k));
}

/// "{id}-" : every cached thumbnail of the photo starts with it.
pub open spec fn thumb_prefix(photo_id: int) -> Seq<char> {
    decimal(photo_id).push('-')
}

/// "{id}-{key:016x}.jpg"
pub open spec fn thumb_name(photo_id: int, key: u64) -> Seq<char> {
    thumb_prefix(photo_id) + hex16(key) + seq!['.', 'j', 'p', 'g']
}

/// File name of the thumbnail of photo `photo_id` whose file has content
/// key `key`.
pub fn thumb_file_name(photo_id: i64, key: u64) -> (name: String)
    ensures
        name@ == thumb_name(photo_id as int, key),
{
    let mut s = String::new();
    push_decimal(&mut s, photo_id);
    push_char(&mut s, '-');
    push_hex16(&mut s, key);
    push_char(&mut s, '.');
    push_char(&mut s, 'j');
    push_char(&mut s, 'p');
    push_char(&mut s, 'g');
    assert(s@ =~= thumb_name(photo_id as int, key));
    s
}

/// "{id}.jpg", the name thumbnails had before they were keyed by content.
pub fn legacy_thumb_file_name(photo_id: i64) -> (name: String)
    ensures
        name@ == decimal(photo_id as int) + seq!['.', 'j', 'p', 'g'],
{
    let mut s = String::new();
    push_decimal(&mut s, photo_id);
    push_char(&mut s, '.');
    push_char(&mut s, 'j');
    push_char(&mut s, 'p');
    push_char(&mut s, 'g');
    assert(s@ =~= decimal(photo_id as int) + seq!['.', 'j', 'p', 'g']);
    s
}

pub open spec fn starts_with(s: Seq<char>, p: Seq<char>) -> bool {
    p.len() <= s.len() && s.subrange(0, p.len() as int) == p
}

/// Whether a file in the thumbnail folder is a (content-keyed) thumbnail of
/// photo `photo_id`.
pub fn is_thumb_of(file_name: &str, photo_id: i64) -> (b: bool)
    ensures
        b == starts_with(file_name@, thumb_prefix(photo_id as int)),
{
    let mut p = String::new();
    push_decimal(&mut p, photo_id);
    push_char(&mut p, '-');
    let pv = crate::text::chars_of(p.as_str());
    let fv = crate::text::chars_of(file_name);
    if pv.len() > fv.len() {
        return false;
    }
    let mut i: usize = 0;
    while i < pv.len()
        invariant
            pv@ == thumb_prefix(photo_id as int),
            fv@ == file_name@,
            pv@.len() <= fv@.len(),
            i <= pv@.len(),
            forall|k: int| 0 <= k < i ==> pv@[k] == fv@[k],
        decreases pv@.len() - i,
    {
        if pv[i] != fv[i] {
            return false;
        }
        i = i + 1;
    }
    assert(fv@.subrange(0, pv@.len() as int) =~= pv@);
    true
}

// ---- laws about the names ----

pub open spec fn digit_value(c: char) -> int {
    (c as int) - 48
}

/// Reads back a string of decimal digits.
pub open spec fn digits_value(s: Seq<char>) -> int
    decreases s.len(),
{
    if s.len() == 0 {
        0
    } else {
        digits_value(s.drop_last()) * 10 + digit_value(s.last())
    }
}

pub proof fn lemma_digits_shape(n: nat)
    ensures
        decimal_digits(n).len() >= 1,
        forall|i: int| 0 <= i < decimal_digits(n).len() ==> '0' <= #[trigger] decimal_digits(n)[i] <= '9',
        digits_value(decimal_digits(n)) == n,
    decreases n,
{
    assert(digit_value(digit_char((n % 10) as int)) == n % 10);
    let s = decimal_digits(n);
    if n >= 10 {
        lemma_digits_shape(n / 10);
        let d = decimal_digits(n / 10);
        assert((n / 10) * 10 + n % 10 == n);
        assert(s.drop_last() =~= d);
        assert(digits_value(s) == digits_value(d) * 10 + digit_value(s.last()));
        assert forall|i: int| 0 <= i < s.len() implies '0' <= #[trigger] s[i] <= '9' by {
            if i < d.len() {
                assert(s[i] == d[i]);
            }
        }
    } else {
        assert(s.drop_last() =~= Seq::<char>::empty());
        assert(digits_value(s) == digits_value(s.drop_last()) * 10 + digit_value(s.last()));
    }
}

/// Different numbers have different decimal digits.
pub proof fn lemma_decimal_digits_injective(a: nat, b: nat)
    requires
        decimal_digits(a) == decimal_digits(b),
    ensures
        a == b,
{
    lemma_digits_shape(a);
    lemma_digits_shape(b);
}

proof fn lemma_decimal_injective(a: int, b: int)
    requires
        decimal(a) == decimal(b),
    ensures
        a == b,
{
    if a < 0 {
        lemma_digits_shape((-a) as nat);
    } else {
        lemma_digits_shape(a as nat);
    }
    if b < 0 {
        lemma_digits_shape((-b) as nat);
    } else {
        lemma_digits_shape(b as nat);
    }
    if a < 0 && b < 0 {
        assert(decimal(a).drop_first() =~= decimal_digits((-a) as nat));
        assert(decimal(b).drop_first() =~= decimal_digits((-b) as nat));
    } else if a < 0 {
        assert(decimal(a)[0] == '-');
        assert(decimal(b)[0] == decimal_digits(b as nat)[0]);
    } else if b < 0 {
        assert(decimal(b)[0] == '-');
        assert(decimal(a)[0] == decimal_digits(a as nat)[0]);
    }
}

/// After its first character, a decimal holds only digits.
proof fn lemma_decimal_shape(n: int)
    ensures
        decimal(n).len() >= 1,
        forall|i: int| 1 <= i < decimal(n).len() ==> '0' <= #[trigger] decimal(n)[i] <= '9',
{
    if n < 0 {
        lemma_digits_shape((-n) as nat);
        assert forall|i: int| 1 <= i < decimal(n).len() implies '0' <= #[trigger] decimal(n)[i] <= '9' by {
            assert(decimal(n)[i] == decimal_digits((-n) as nat)[i - 1]);
        }
    } else {
        lemma_digits_shape(n as nat);
    }
}

/// The thumbnail folder test matches exactly the thumbnails of the photo it
/// is asked about: a thumbnail name of photo `b` starts with the prefix of
/// photo `a` if and only if `a == b`. Removing a photo's thumbnails
/// therefore never touches another photo's.
pub proof fn law_thumb_names_belong_to_one_photo(a: int, b: int, key: u64)
    ensures
        starts_with(thumb_name(b, key), thumb_prefix(a)) <==> a == b,
{
    let name = thumb_name(b, key);
    let pa = thumb_prefix(a);
    let pb = thumb_prefix(b);
    lemma_decimal_shape(a);
    lemma_decimal_shape(b);
    let la = decimal(a).len() as int;
    let lb = decimal(b).len() as int;
    assert(name.subrange(0, pb.len() as int) =~= pb);
    if starts_with(name, pa) {
        assert(pa[la] == '-');
        assert(name.subrange(0, pa.len() as int)[la] == name[la]);
        assert(name[la] == '-');
        if la < lb {
            assert(name[la] == decimal(b)[la]);
        } else if la > lb {
            assert(name[lb] == '-');
            assert(name[lb] == pa[lb]);
            assert(pa[lb] == decimal(a)[lb]);
        }
        assert(decimal(a) =~= name.subrange(0, la));
        assert(decimal(b) =~= name.subrange(0, lb));
        lemma_decimal_injective(a, b);
    }
}

} // verus!
