use vstd::prelude::*;
use vstd::utf8::{
    encode_utf8, encode_utf8_valid_utf8, is_char_boundary, is_char_boundary_iff_not_is_continuation_byte,
    is_char_boundary_start_end_of_seq, is_continuation_byte, pop_first_scalar, valid_first_scalar,
    valid_utf8, valid_utf8_concat, valid_utf8_split,
};
use crate::text::{ascii_lower, ascii_lower_all, ascii_lowercase, same_chars, string_from_utf8, trim, trimmed};

verus! {

/// File extensions decoded as camera RAW files.
pub open spec fn raw_ext_names() -> Seq<Seq<char>> {
    seq![
        "cr2"@, "cr3"@, "crw"@, "nef"@, "nrw"@, "arw"@, "srf"@, "sr2"@, "dng"@, "raf"@, "orf"@,
        "rw2"@, "pef"@, "srw"@, "erf"@, "kdc"@, "dcr"@, "3fr"@, "mef"@, "mos"@, "iiq"@, "x3f"@,
    ]
}

/// File extensions decoded as ordinary raster images.
pub open spec fn image_ext_names() -> Seq<Seq<char>> {
    seq!["jpg"@, "jpeg"@, "png"@, "tif"@, "tiff"@, "webp"@, "bmp"@]
}

pub open spec fn views_of(v: Seq<&str>) -> Seq<Seq<char>> {
    v.map_values(|s: &str| s@)
}

pub fn raw_exts() -> (v: Vec<&'static str>)
    ensures
        views_of(v@) == raw_ext_names(),
{
    let v = vec![
        "cr2", "cr3", "crw", "nef", "nrw", "arw", "srf", "sr2", "dng", "raf", "orf", "rw2", "pef",
        "srw", "erf", "kdc", "dcr", "3fr", "mef", "mos", "iiq", "x3f",
    ];
    assert(views_of(v@) =~= raw_ext_names());
    v
}

pub fn image_exts() -> (v: Vec<&'static str>)
    ensures
        views_of(v@) == image_ext_names(),
{
    let v = vec!["jpg", "jpeg", "png", "tif", "tiff", "webp", "bmp"];
    assert(views_of(v@) =~= image_ext_names());
    v
}

/// Whether the lowered characters `v` are one of `names`.
fn listed(v: &Vec<char>, names: &Vec<&'static str>) -> (b: bool)
    ensures
        b == views_of(names@).contains(v@),
{
    let mut i: usize = 0;
    while i < names.len()
        invariant
            i <= names@.len(),
            forall|k: int| 0 <= k < i ==> names@[k]@ != v@,
        decreases names@.len() - i,
    {
        if same_chars(v, names[i]) {
            assert(views_of(names@)[i as int] == v@);
            return true;
        }
        i = i + 1;
    }
    assert(!views_of(names@).contains(v@)) by {
        if views_of(names@).contains(v@) {
            let k = choose|k: int| 0 <= k < views_of(names@).len() && views_of(names@)[k] == v@;
            assert(names@[k]@ == v@);
        }
    }
    false
}

pub open spec fn is_raw_ext_spec(ext: Seq<char>) -> bool {
    raw_ext_names().contains(ascii_lower_all(ext))
}

pub open spec fn is_supported_ext_spec(ext: Seq<char>) -> bool {
    raw_ext_names().contains(ascii_lower_all(ext)) || image_ext_names().contains(ascii_lower_all(ext))
}

/// Whether `ext` (any letter case) names a camera RAW format.
pub fn is_raw_ext(ext: &str) -> (b: bool)
    ensures
        b == is_raw_ext_spec(ext@),
{
    let lower = ascii_lowercase(ext);
    listed(&lower, &raw_exts())
}

/// Whether `ext` (any letter case) names a format the importer takes.
pub fn is_supported_ext(ext: &str) -> (b: bool)
    ensures
        b == is_supported_ext_spec(ext@),
{
    let lower = ascii_lowercase(ext);
    listed(&lower, &raw_exts()) || listed(&lower, &image_exts())
}

/// Every RAW extension is a supported one, and neither test depends on
/// letter case.
pub proof fn law_raw_exts_are_supported(ext: Seq<char>)
    ensures
        is_raw_ext_spec(ext) ==> is_supported_ext_spec(ext),
        is_raw_ext_spec(ascii_lower_all(ext)) == is_raw_ext_spec(ext),
        is_supported_ext_spec(ascii_lower_all(ext)) == is_supported_ext_spec(ext),
{
    assert forall|c: char| #[trigger] ascii_lower(ascii_lower(c)) == ascii_lower(c) by {}
    assert(ascii_lower_all(ascii_lower_all(ext)) =~= ascii_lower_all(ext));
}

/// The camera RAW formats the importer takes, in any letter case: Canon
/// (cr2, cr3, crw), Nikon (nef, nrw), Sony (arw, srf, sr2), Adobe DNG,
/// Fujifilm (raf), Olympus (orf), Panasonic (rw2), Pentax (pef), Samsung
/// (srw), Epson (erf), Kodak (kdc, dcr), Hasselblad (3fr), Mamiya (mef),
/// Leaf (mos), Phase One (iiq) and Sigma (x3f) — and nothing else.
pub proof fn law_raw_formats(ext: Seq<char>)
    ensures
        is_raw_ext_spec(ext) <==> ({
            let e = ascii_lower_all(ext);
            ||| e == "cr2"@ ||| e == "cr3"@ ||| e == "crw"@
            ||| e == "nef"@ ||| e == "nrw"@
            ||| e == "arw"@ ||| e == "srf"@ ||| e == "sr2"@
            ||| e == "dng"@ ||| e == "raf"@ ||| e == "orf"@ ||| e == "rw2"@
            ||| e == "pef"@ ||| e == "srw"@ ||| e == "erf"@
            ||| e == "kdc"@ ||| e == "dcr"@ ||| e == "3fr"@
            ||| e == "mef"@ ||| e == "mos"@ ||| e == "iiq"@ ||| e == "x3f"@
        }),
        is_supported_ext_spec(ext) <==> (is_raw_ext_spec(ext) || {
            let e = ascii_lower_all(ext);
            ||| e == "jpg"@ ||| e == "jpeg"@ ||| e == "png"@ ||| e == "tif"@
            ||| e == "tiff"@ ||| e == "webp"@ ||| e == "bmp"@
        }),
{
    let e = ascii_lower_all(ext);
    let names = raw_ext_names();
    if names.contains(e) {
        let i = choose|i: int| 0 <= i < names.len() && names[i] == e;
        assert(0 <= i < 22);
    }
    if e == "cr2"@ { assert(names[0] == e); }
    if e == "cr3"@ { assert(names[1] == e); }
    if e == "crw"@ { assert(names[2] == e); }
    if e == "nef"@ { assert(names[3] == e); }
    if e == "nrw"@ { assert(names[4] == e); }
    if e == "arw"@ { assert(names[5] == e); }
    if e == "srf"@ { assert(names[6] == e); }
    if e == "sr2"@ { assert(names[7] == e); }
    if e == "dng"@ { assert(names[8] == e); }
    if e == "raf"@ { assert(names[9] == e); }
    if e == "orf"@ { assert(names[10] == e); }
    if e == "rw2"@ { assert(names[11] == e); }
    if e == "pef"@ { assert(names[12] == e); }
    if e == "srw"@ { assert(names[13] == e); }
    if e == "erf"@ { assert(names[14] == e); }
    if e == "kdc"@ { assert(names[15] == e); }
    if e == "dcr"@ { assert(names[16] == e); }
    if e == "3fr"@ { assert(names[17] == e); }
    if e == "mef"@ { assert(names[18] == e); }
    if e == "mos"@ { assert(names[19] == e); }
    if e == "iiq"@ { assert(names[20] == e); }
    if e == "x3f"@ { assert(names[21] == e); }
    let im = image_ext_names();
    if im.contains(e) {
        let i = choose|i: int| 0 <= i < im.len() && im[i] == e;
        assert(0 <= i < 7);
    }
    if e == "jpg"@ { assert(im[0] == e); }
    if e == "jpeg"@ { assert(im[1] == e); }
    if e == "png"@ { assert(im[2] == e); }
    if e == "tif"@ { assert(im[3] == e); }
    if e == "tiff"@ { assert(im[4] == e); }
    if e == "webp"@ { assert(im[5] == e); }
    if e == "bmp"@ { assert(im[6] == e); }
}

// ---- EXIF date/time ----

/// The UTF-8 bytes of the trimmed EXIF date/time text.
pub open spec fn datetime_bytes(s: Seq<char>) -> Seq<u8> {
    encode_utf8(trimmed(s))
}

/// The text has the "YYYY:MM:DD HH:MM:SS" layout that is converted: at
/// least 19 bytes, with ':' at bytes 4 and 7.
pub open spec fn has_exif_datetime_layout(b: Seq<u8>) -> bool {
    b.len() >= 19 && b[4] == 58u8 && b[7] == 58u8
}

/// The byte offsets 10, 11 and 19 fall between characters, so the text can
/// be cut there.
pub open spec fn cuts_cleanly(b: Seq<u8>) -> bool {
    !is_continuation_byte(b[10]) && !is_continuation_byte(b[11]) && (b.len() == 19
        || !is_continuation_byte(b[19]))
}

/// "YYYY-MM-DDTHH:MM:SS", built from the bytes of "YYYY:MM:DD HH:MM:SS".
pub open spec fn iso_datetime_bytes(b: Seq<u8>) -> Seq<u8> {
    b.subrange(0, 4) + seq![45u8] + b.subrange(5, 7) + seq![45u8] + b.subrange(8, 10) + seq![84u8]
        + b.subrange(11, 19)
}

proof fn lemma_ascii_byte_valid(x: u8)
    requires
        x < 128,
    ensures
        valid_utf8(seq![x]),
{
    let s = seq![x];
    assert((x & 0x7Fu8) == x) by (bit_vector)
        requires
            x < 128,
    ;
    assert(valid_first_scalar(s));
    assert(pop_first_scalar(s) =~= Seq::<u8>::empty());
    reveal_with_fuel(valid_utf8, 2);
}

/// A piece of valid UTF-8 cut at two character starts is valid UTF-8.
proof fn lemma_valid_slice(b: Seq<u8>, i: int, j: int)
    requires
        valid_utf8(b),
        0 <= i <= j <= b.len(),
        i == 0 || i == b.len() || !is_continuation_byte(b[i]),
        j == b.len() || !is_continuation_byte(b[j]),
    ensures
        valid_utf8(b.subrange(i, j)),
{
    is_char_boundary_start_end_of_seq(b);
    if 0 < i < b.len() {
        is_char_boundary_iff_not_is_continuation_byte(b, i);
    }
    assert(is_char_boundary(b, i));
    valid_utf8_split(b, i);
    let s = b.subrange(i, b.len() as int);
    if j == b.len() {
        assert(s =~= b.subrange(i, j));
    } else {
        is_char_boundary_iff_not_is_continuation_byte(s, j - i);
        valid_utf8_split(s, j - i);
        assert(s.subrange(0, j - i) =~= b.subrange(i, j));
    }
}

/// In valid UTF-8 the byte after a one-byte character starts a character.
proof fn lemma_after_ascii(b: Seq<u8>, k: int)
    requires
        valid_utf8(b),
        0 <= k,
        k + 1 < b.len(),
        b[k] < 128,
    ensures
        !is_continuation_byte(b[k + 1]),
{
    lemma_valid_slice(b, k, b.len() as int);
    let s = b.subrange(k, b.len() as int);
    reveal_with_fuel(valid_utf8, 2);
    assert(valid_utf8(pop_first_scalar(s)));
    let t = pop_first_scalar(s);
    assert(t =~= b.subrange(k + 1, b.len() as int));
    assert(valid_first_scalar(t));
    assert(t[0] == b[k + 1]);
}

proof fn lemma_iso_valid(b: Seq<u8>)
    requires
        valid_utf8(b),
        has_exif_datetime_layout(b),
        cuts_cleanly(b),
    ensures
        valid_utf8(iso_datetime_bytes(b)),
{
    lemma_after_ascii(b, 4);
    lemma_after_ascii(b, 7);
    lemma_valid_slice(b, 0, 4);
    lemma_valid_slice(b, 5, 7);
    lemma_valid_slice(b, 8, 10);
    lemma_valid_slice(b, 11, 19);
    lemma_ascii_byte_valid(45u8);
    lemma_ascii_byte_valid(84u8);
    let p1 = b.subrange(0, 4) + seq![45u8];
    valid_utf8_concat(b.subrange(0, 4), seq![45u8]);
    let p2 = p1 + b.subrange(5, 7);
    valid_utf8_concat(p1, b.subrange(5, 7));
    let p3 = p2 + seq![45u8];
    valid_utf8_concat(p2, seq![45u8]);
    let p4 = p3 + b.subrange(8, 10);
    valid_utf8_concat(p3, b.subrange(8, 10));
    let p5 = p4 + seq![84u8];
    valid_utf8_concat(p4, seq![84u8]);
    valid_utf8_concat(p5, b.subrange(11, 19));
}

/// Whether `s` can be converted without cutting a character apart; text
/// that has the converted layout but not this property is refused.
pub fn datetime_cuts_cleanly(s: &str) -> (ok: bool)
    ensures
        ok == (has_exif_datetime_layout(datetime_bytes(s@)) ==> cuts_cleanly(datetime_bytes(s@))),
{
    let t = trim(s);
    let b = t.as_bytes();
    if b.len() < 19 || b[4] != 58u8 || b[7] != 58u8 {
        return true;
    }
    let c10 = 0x80u8 <= b[10] && b[10] <= 0xbfu8;
    let c11 = 0x80u8 <= b[11] && b[11] <= 0xbfu8;
    let c19 = b.len() > 19 && 0x80u8 <= b[19] && b[19] <= 0xbfu8;
    !c10 && !c11 && !c19
}

/// "YYYY:MM:DD HH:MM:SS" (surrounding white space ignored, anything after
/// the seconds dropped) -> "YYYY-MM-DDTHH:MM:SS"; `None` for text of any
/// other layout.
pub fn normalize_exif_datetime(s: &str) -> (r: Option<String>)
    requires
        has_exif_datetime_layout(datetime_bytes(s@)) ==> cuts_cleanly(datetime_bytes(s@)),
    ensures
        r is Some <==> has_exif_datetime_layout(datetime_bytes(s@)),
        r matches Some(t) ==> encode_utf8(t@) == iso_datetime_bytes(datetime_bytes(s@)),
{
    let t = trim(s);
    let b = t.as_bytes();
    if b.len() < 19 {
        return None;
    }
    if b[4] != 58u8 || b[7] != 58u8 {
        return None;
    }
    let ghost bs = b@;
    let mut out: Vec<u8> = Vec::with_capacity(19);
    let mut i: usize = 0;
    while i < 19
        invariant
            b@ == bs,
            bs.len() >= 19,
            i <= 19,
            out@ == (if i <= 4 {
                bs.subrange(0, i as int)
            } else if i <= 7 {
                bs.subrange(0, 4) + seq![45u8] + bs.subrange(5, i as int)
            } else if i <= 10 {
                bs.subrange(0, 4) + seq![45u8] + bs.subrange(5, 7) + seq![45u8] + bs.subrange(8, i as int)
            } else {
                bs.subrange(0, 4) + seq![45u8] + bs.subrange(5, 7) + seq![45u8] + bs.subrange(8, 10)
                    + seq![84u8] + bs.subrange(11, i as int)
            }),
        decreases 19 - i,
    {
        let byte = if i == 4 || i == 7 {
            45u8
        } else if i == 10 {
            84u8
        } else {
            b[i]
        };
        out.push(byte);
        i = i + 1;
        proof {
            if i <= 4 {
                assert(out@ =~= bs.subrange(0, i as int));
            } else if i == 5 {
                assert(out@ =~= bs.subrange(0, 4) + seq![45u8] + bs.subrange(5, 5));
            } else if i <= 7 {
                assert(out@ =~= bs.subrange(0, 4) + seq![45u8] + bs.subrange(5, i as int));
            } else if i == 8 {
                assert(out@ =~= bs.subrange(0, 4) + seq![45u8] + bs.subrange(5, 7) + seq![45u8] + bs.subrange(8, 8));
            } else if i <= 10 {
                assert(out@ =~= bs.subrange(0, 4) + seq![45u8] + bs.subrange(5, 7) + seq![45u8] + bs.subrange(8, i as int));
            } else if i == 11 {
                assert(out@ =~= bs.subrange(0, 4) + seq![45u8] + bs.subrange(5, 7) + seq![45u8] + bs.subrange(8, 10) + seq![84u8] + bs.subrange(11, 11));
            } else {
                assert(out@ =~= bs.subrange(0, 4) + seq![45u8] + bs.subrange(5, 7) + seq![45u8] + bs.subrange(8, 10) + seq![84u8] + bs.subrange(11, i as int));
            }
        }
    }
    proof {
        encode_utf8_valid_utf8(t@);
        lemma_iso_valid(bs);
    }
    string_from_utf8(out)
}

/// The capture time recorded in EXIF: the original date/time when it has
/// the converted layout, else the plain date/time field (which is only
/// looked at in that case).
pub fn captured_from_exif(original: Option<&str>, plain: Option<&str>) -> (r: Option<String>)
    requires
        original matches Some(o) ==> (has_exif_datetime_layout(datetime_bytes(o@)) ==> cuts_cleanly(datetime_bytes(o@))),
        !(original matches Some(o) && has_exif_datetime_layout(datetime_bytes(o@))) ==> (plain matches Some(p)
            ==> (has_exif_datetime_layout(datetime_bytes(p@)) ==> cuts_cleanly(datetime_bytes(p@)))),
    ensures
        r is Some <==> ((original matches Some(o) && has_exif_datetime_layout(datetime_bytes(o@))) || (plain matches Some(p)
            && has_exif_datetime_layout(datetime_bytes(p@)))),
        r matches Some(t) ==> (if original matches Some(o) && has_exif_datetime_layout(datetime_bytes(o@)) {
            encode_utf8(t@) == iso_datetime_bytes(datetime_bytes(original->0@))
        } else {
            encode_utf8(t@) == iso_datetime_bytes(datetime_bytes(plain->0@))
        }),
{
    let mut captured: Option<String> = None;
    if let Some(o) = original {
        captured = normalize_exif_datetime(o);
    }
    if captured.is_none() {
        if let Some(p) = plain {
            captured = normalize_exif_datetime(p);
        }
    }
    captured
}

} // verus!
