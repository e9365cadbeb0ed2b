use vstd::prelude::*;
use vstd::utf8::encode_utf8;
use crate::histogram::Histogram;
use crate::text::{chars_of, push_char, replace_all, replaced, same_text, string_from_chars, trim, trimmed};
use crate::thumbs::{decimal, decimal_digits, digits_value, lemma_digits_shape, push_decimal_digits};

verus! {

/// Outcome of importing a folder.
pub struct ImportResult {
    pub folder_id: i64,
    pub added: usize,
    pub total: usize,
}

/// A rendered develop preview.
pub struct RenderResult {
    pub data_url: String,
    pub width: usize,
    pub height: usize,
    pub histogram: Histogram,
}

/// Where an exported file went, or that it was skipped.
pub struct ExportOutcome {
    pub path: String,
    pub skipped: bool,
}

/// New location of a renamed photo.
pub struct RenameResult {
    pub path: String,
    pub filename: String,
}

/// The EXIF fields shown in the info panel.
pub struct ExifInfo {
    pub camera: Option<String>,
    pub lens: Option<String>,
    pub iso: Option<String>,
    pub shutter: Option<String>,
    pub aperture: Option<String>,
    pub focal: Option<String>,
    pub captured: Option<String>,
    pub file_size: Option<u64>,
}

/// How many duplicate groups were found and how many photos they hold.
pub struct DupResult {
    pub groups: usize,
    pub flagged: usize,
}

/// Export settings.
pub struct ExportOptions {
    pub format: String,
    pub quality: u8,
    pub resize_mode: String,
    pub resize_px: u32,
    pub no_enlarge: bool,
    pub name_pattern: String,
    pub seq: u32,
    pub on_conflict: String,
}

impl Default for ExportOptions {
    fn default() -> (o: Self)
        ensures
            o.format@ == "jpeg"@,
            o.quality == 90,
            o.resize_mode@ == "none"@,
            o.resize_px == 2048,
            o.no_enlarge,
            o.name_pattern@ == "{name}-revela"@,
            o.seq == 1,
            o.on_conflict@ == "unique"@,
    {
        ExportOptions {
            format: String::from_str("jpeg"),
            quality: 90,
            resize_mode: String::from_str("none"),
            resize_px: 2048,
            no_enlarge: true,
            name_pattern: String::from_str("{name}-revela"),
            seq: 1,
            on_conflict: String::from_str("unique"),
        }
    }
}

// ---- names typed by the user ----

/// Characters Windows cannot store in a file name.
pub open spec fn is_reserved_char(c: char) -> bool {
    c == '<' || c == '>' || c == ':' || c == '"' || c == '/' || c == '\\' || c == '|' || c == '?'
        || c == '*'
}

pub fn reserved_char(c: char) -> (b: bool)
    ensures
        b == is_reserved_char(c),
{
    c == '<' || c == '>' || c == ':' || c == '"' || c == '/' || c == '\\' || c == '|' || c == '?'
        || c == '*'
}

/// Characters a new file name may not hold: the reserved ones and the
/// control characters.
pub open spec fn is_forbidden_in_name(c: char) -> bool {
    is_reserved_char(c) || c < ' '
}

/// Why a name was refused; `message` is the text the user sees.
pub enum NameError {
    InvalidPresetName,
    InvalidFileName,
    ForbiddenCharacters,
}

impl NameError {
    pub open spec fn message_spec(self) -> Seq<char> {
        match self {
            NameError::InvalidPresetName => "Invalid preset name"@,
            NameError::InvalidFileName => "Invalid file name"@,
            NameError::ForbiddenCharacters => "The name contains characters that are not allowed"@,
        }
    }

    pub fn message(&self) -> (m: String)
        ensures
            m@ == self.message_spec(),
    {
        match self {
            NameError::InvalidPresetName => String::from_str("Invalid preset name"),
            NameError::InvalidFileName => String::from_str("Invalid file name"),
            NameError::ForbiddenCharacters => String::from_str("The name contains characters that are not allowed"),
        }
    }
}

/// A preset name as it is saved: trimmed, then refused when empty or
/// longer than 64 bytes.
pub fn preset_name(name: &str) -> (r: Result<String, NameError>)
    ensures
        match r {
            Ok(t) => t@ == trimmed(name@) && 0 < t@.len() && encode_utf8(t@).len() <= 64,
            Err(e) => e == NameError::InvalidPresetName && (trimmed(name@).len() == 0 || encode_utf8(trimmed(name@)).len() > 64),
        },
{
    let t = trim(name);
    let blen = t.as_bytes().len();
    assert(blen == encode_utf8(t@).len());
    if t.unicode_len() == 0 || blen > 64 {
        return Err(NameError::InvalidPresetName);
    }
    let s = String::from_str(t);
    assert(s@ == t@);
    Ok(s)
}

/// A new file stem for a photo: trimmed; refused when empty or longer than
/// 180 bytes, or when it holds a reserved or control character or ends
/// with '.'.
pub fn new_stem(stem: &str) -> (r: Result<String, NameError>)
    ensures
        ({
            let t = trimmed(stem@);
            match r {
                Ok(s) => s@ == t && 0 < t.len() && encode_utf8(t).len() <= 180 && (forall|i: int|
                    0 <= i < t.len() ==> !is_forbidden_in_name(#[trigger] t[i])) && t.last() != '.',
                Err(NameError::InvalidFileName) => t.len() == 0 || encode_utf8(t).len() > 180,
                Err(NameError::ForbiddenCharacters) => 0 < t.len() && encode_utf8(t).len() <= 180 && ((exists|i: int|
                    0 <= i < t.len() && is_forbidden_in_name(#[trigger] t[i])) || t.last() == '.'),
                Err(NameError::InvalidPresetName) => false,
            }
        }),
{
    let t = trim(stem);
    let n = t.unicode_len();
    let blen = t.as_bytes().len();
    assert(blen == encode_utf8(t@).len());
    if n == 0 || blen > 180 {
        return Err(NameError::InvalidFileName);
    }
    let v = chars_of(t);
    let mut i: usize = 0;
    while i < n
        invariant
            n == v@.len(),
            v@ == t@,
            t@ == trimmed(stem@),
            0 < n,
            encode_utf8(t@).len() <= 180,
            i <= n,
            forall|k: int| 0 <= k < i ==> !is_forbidden_in_name(#[trigger] v@[k]),
        decreases n - i,
    {
        let c = v[i];
        if reserved_char(c) || ' ' > c {
            assert(is_forbidden_in_name(trimmed(stem@)[i as int]));
            return Err(NameError::ForbiddenCharacters);
        }
        i = i + 1;
    }
    if v[n - 1] == '.' {
        assert(t@.last() == '.');
        return Err(NameError::ForbiddenCharacters);
    }
    let s = String::from_str(t);
    assert(s@ == t@);
    Ok(s)
}

/// File name of a renamed photo: the new stem plus the old extension, if
/// there was one.
pub fn renamed_file_name(stem: &str, ext: &str) -> (name: String)
    ensures
        name@ == if ext@.len() == 0 {
            stem@
        } else {
            stem@ + seq!['.'] + ext@
        },
{
    let mut s = String::from_str(stem);
    if ext.unicode_len() > 0 {
        push_char(&mut s, '.');
        s.append(ext);
    }
    s
}

// ---- export ----

/// `n` with at least three digits, zero padded (`{:03}`).
pub open spec fn zero_padded3(n: u32) -> Seq<char> {
    let d = decimal_digits(n as nat);
    if d.len() >= 3 {
        d
    } else {
        Seq::new((3 - d.len()) as nat, |i: int| '0') + d
    }
}

pub fn push_zero_padded3(s: &mut String, n: u32)
    ensures
        final(s)@ == old(s)@ + zero_padded3(n),
{
    let ghost start = s@;
    if n < 10 {
        push_char(s, '0');
        push_char(s, '0');
    } else if n < 100 {
        push_char(s, '0');
    }
    push_decimal_digits(s, n as u64);
    proof {
        let d = decimal_digits(n as nat);
        if n < 10 {
            assert(d.len() == 1);
        } else if n < 100 {
            assert(decimal_digits((n / 10) as nat).len() == 1);
            assert(d.len() == 2);
        } else {
            assert(decimal_digits((n / 10) as nat).len() >= 2) by {
                assert(decimal_digits((n / 100) as nat).len() >= 1) by {
                    lemma_digits_len(n as nat / 100);
                }
            }
        }
        assert(s@ =~= start + zero_padded3(n));
    }
}

proof fn lemma_digits_len(n: nat)
    ensures
        decimal_digits(n).len() >= 1,
    decreases n,
{
    if n >= 10 {
        lemma_digits_len(n / 10);
    }
}

/// A leading '0' does not change the number a digit string reads as.
proof fn lemma_leading_zero_value(s: Seq<char>)
    ensures
        digits_value(seq!['0'] + s) == digits_value(s),
    decreases s.len(),
{
    let t = seq!['0'] + s;
    assert(crate::thumbs::digit_value('0') == 0);
    if s.len() == 0 {
        assert(t.drop_last() =~= Seq::<char>::empty());
        assert(digits_value(t) == digits_value(t.drop_last()) * 10 + crate::thumbs::digit_value(t.last()));
    } else {
        assert(t.drop_last() =~= seq!['0'] + s.drop_last());
        assert(t.last() == s.last());
        lemma_leading_zero_value(s.drop_last());
        assert(digits_value(t) == digits_value(t.drop_last()) * 10 + crate::thumbs::digit_value(t.last()));
        assert(digits_value(s) == digits_value(s.drop_last()) * 10 + crate::thumbs::digit_value(s.last()));
    }
}

/// The decimal digits of a positive number do not start with '0'.
proof fn lemma_digits_lead(n: nat)
    requires
        n >= 1,
    ensures
        decimal_digits(n)[0] != '0',
    decreases n,
{
    if n >= 10 {
        lemma_digits_lead(n / 10);
        lemma_digits_shape(n / 10);
    }
}

/// What `{seq}` becomes in an export name: a string of decimal digits at
/// least three long that reads back as the sequence number, with no
/// leading zero beyond those needed to reach three digits. Below 1000 it
/// is exactly three digits (12 gives "012").
pub proof fn law_zero_padded3_reads_back(n: u32)
    ensures
        zero_padded3(n).len() >= 3,
        n < 1000 ==> zero_padded3(n).len() == 3,
        forall|i: int| 0 <= i < zero_padded3(n).len() ==> '0' <= #[trigger] zero_padded3(n)[i] <= '9',
        digits_value(zero_padded3(n)) == n,
        zero_padded3(n).len() > 3 ==> zero_padded3(n)[0] != '0',
{
    let d = decimal_digits(n as nat);
    lemma_digits_shape(n as nat);
    let s = zero_padded3(n);
    if n < 1000 {
        if n >= 10 {
            lemma_digits_shape((n / 10) as nat);
            if n >= 100 {
                assert(decimal_digits((n / 100) as nat).len() == 1);
            }
        }
        assert(d.len() <= 3);
    }
    if d.len() >= 3 {
        assert(s == d);
        if d.len() > 3 {
            lemma_digits_lead(n as nat);
        }
    } else if d.len() == 2 {
        assert(s =~= seq!['0'] + d);
        lemma_leading_zero_value(d);
        assert forall|i: int| 0 <= i < s.len() implies '0' <= #[trigger] s[i] <= '9' by {
            if i > 0 {
                assert(s[i] == d[i - 1]);
            }
        }
    } else {
        assert(d.len() == 1);
        assert(s =~= seq!['0'] + (seq!['0'] + d));
        lemma_leading_zero_value(d);
        lemma_leading_zero_value(seq!['0'] + d);
        assert forall|i: int| 0 <= i < s.len() implies '0' <= #[trigger] s[i] <= '9' by {
            if i > 1 {
                assert(s[i] == d[i - 2]);
            }
        }
    }
}

/// The export file name before its extension: the pattern with `{name}`
/// replaced by the photo's stem and `{seq}` by the zero-padded sequence
/// number, reserved characters removed; the stem itself when that leaves
/// only white space.
pub open spec fn keep_in_export_name() -> spec_fn(char) -> bool {
    |c: char| !is_reserved_char(c)
}

pub open spec fn export_name_spec(pattern: Seq<char>, stem: Seq<char>, seq_no: u32) -> Seq<char> {
    let named = replaced(replaced(pattern, "{name}"@, stem), "{seq}"@, zero_padded3(seq_no));
    let kept = named.filter(keep_in_export_name());
    if trimmed(kept).len() == 0 {
        stem
    } else {
        kept
    }
}

pub fn export_name(pattern: &str, stem: &str, seq_no: u32) -> (name: String)
    ensures
        name@ == export_name_spec(pattern@, stem@, seq_no),
{
    proof {
        reveal_strlit("{name}");
        reveal_strlit("{seq}");
    }
    let pv = chars_of(pattern);
    let name_tag = chars_of("{name}");
    let seq_tag = chars_of("{seq}");
    let stem_v = chars_of(stem);
    let mut seq_s = String::new();
    push_zero_padded3(&mut seq_s, seq_no);
    let seq_v = chars_of(seq_s.as_str());
    let step1 = replace_all(&pv, &name_tag, &stem_v);
    let step2 = replace_all(&step1, &seq_tag, &seq_v);
    let mut kept: Vec<char> = Vec::new();
    let mut i: usize = 0;
    while i < step2.len()
        invariant
            i <= step2@.len(),
            kept@ == step2@.take(i as int).filter(keep_in_export_name()),
        decreases step2@.len() - i,
    {
        proof {
            assert(step2@.take(i + 1) =~= step2@.take(i as int).push(step2@[i as int]));
            step2@.take(i as int).lemma_filter_push(step2@[i as int], keep_in_export_name());
        }
        if !reserved_char(step2[i]) {
            kept.push(step2[i]);
        }
        proof {
            assert(step2@.take(i + 1).last() == step2@[i as int]);
        }
        i = i + 1;
    }
    assert(step2@.take(i as int) =~= step2@);
    let candidate = string_from_chars(&kept, 0, kept.len());
    assert(kept@.subrange(0, kept@.len() as int) =~= kept@);
    let t = trim(candidate.as_str());
    if t.unicode_len() == 0 {
        String::from_str(stem)
    } else {
        candidate
    }
}

/// File extension and bit depth of an export format: "png" and "tiff" are
/// 8-bit, "tiff16" is 16-bit TIFF, anything else is JPEG.
pub open spec fn export_format_spec(format: Seq<char>) -> (Seq<char>, bool) {
    if format == "png"@ {
        ("png"@, false)
    } else if format == "tiff"@ {
        ("tif"@, false)
    } else if format == "tiff16"@ {
        ("tif"@, true)
    } else {
        ("jpg"@, false)
    }
}

pub fn export_format(format: &str) -> (r: (&'static str, bool))
    ensures
        (r.0@, r.1) == export_format_spec(format@),
{
    if same_text(format, "png") {
        ("png", false)
    } else if same_text(format, "tiff") {
        ("tif", false)
    } else if same_text(format, "tiff16") {
        ("tif", true)
    } else {
        ("jpg", false)
    }
}

/// What to do when the export target already exists.
pub enum ConflictPolicy {
    Overwrite,
    Skip,
    Unique,
}

/// "overwrite" and "skip" are taken literally; anything else picks a
/// free numbered name.
pub fn conflict_policy(on_conflict: &str) -> (p: ConflictPolicy)
    ensures
        p == (if on_conflict@ == "overwrite"@ {
            ConflictPolicy::Overwrite
        } else if on_conflict@ == "skip"@ {
            ConflictPolicy::Skip
        } else {
            ConflictPolicy::Unique
        }),
{
    if same_text(on_conflict, "overwrite") {
        ConflictPolicy::Overwrite
    } else if same_text(on_conflict, "skip") {
        ConflictPolicy::Skip
    } else {
        ConflictPolicy::Unique
    }
}

/// "{name}.{ext}"
pub fn output_file_name(name: &str, ext: &str) -> (f: String)
    ensures
        f@ == name@ + seq!['.'] + ext@,
{
    let mut s = String::from_str(name);
    push_char(&mut s, '.');
    s.append(ext);
    s
}

pub open spec fn numbered_name(name: Seq<char>, n: u32, ext: Seq<char>) -> Seq<char> {
    name + seq!['-'] + decimal_digits(n as nat) + seq!['.'] + ext
}

/// "{name}-{n}.{ext}", the n-th alternative when the export target exists.
pub fn numbered_file_name(name: &str, n: u32, ext: &str) -> (f: String)
    ensures
        f@ == numbered_name(name@, n, ext@),
{
    let mut s = String::from_str(name);
    push_char(&mut s, '-');
    push_decimal_digits(&mut s, n as u64);
    push_char(&mut s, '.');
    s.append(ext);
    s
}

proof fn lemma_digits_all_digits(n: nat)
    ensures
        forall|i: int| 0 <= i < decimal_digits(n).len() ==> '0' <= #[trigger] decimal_digits(n)[i] <= '9',
    decreases n,
{
    if n >= 10 {
        lemma_digits_all_digits(n / 10);
        let d = decimal_digits(n / 10);
        assert forall|i: int| 0 <= i < decimal_digits(n).len() implies '0' <= #[trigger] decimal_digits(n)[i] <= '9' by {
            if i < d.len() {
                assert(decimal_digits(n)[i] == d[i]);
            }
        }
    }
}

/// The numbered alternatives of one export name are all different, so the
/// search for a free name tries a new file each time.
pub proof fn law_numbered_names_differ(name: Seq<char>, ext: Seq<char>, n: u32, m: u32)
    requires
        n != m,
    ensures
        numbered_name(name, n, ext) != numbered_name(name, m, ext),
{
    let a = numbered_name(name, n, ext);
    let b = numbered_name(name, m, ext);
    let dn = decimal_digits(n as nat);
    let dm = decimal_digits(m as nat);
    lemma_digits_all_digits(n as nat);
    lemma_digits_all_digits(m as nat);
    let base: int = name.len() as int + 1;
    if a == b {
        if dn.len() < dm.len() {
            assert(a[base + dn.len() as int] == '.');
            assert(b[base + dn.len() as int] == dm[dn.len() as int]);
        } else if dm.len() < dn.len() {
            assert(b[base + dm.len() as int] == '.');
            assert(a[base + dm.len() as int] == dn[dm.len() as int]);
        } else {
            assert(dn =~= a.subrange(base, base + dn.len() as int));
            assert(dm =~= b.subrange(base, base + dm.len() as int));
            crate::thumbs::lemma_decimal_digits_injective(n as nat, m as nat);
        }
    }
}

/// Hash distance at most which two photos count as duplicates:
/// "strict" 3, "loose" 12, anything else 7.
pub fn dup_threshold(strictness: Option<&str>) -> (t: u32)
    ensures
        t == match strictness {
            Some(s) => if s@ == "strict"@ {
                3u32
            } else if s@ == "loose"@ {
                12u32
            } else {
                7u32
            },
            None => 7u32,
        },
{
    match strictness {
        Some(s) => {
            if same_text(s, "strict") {
                3
            } else if same_text(s, "loose") {
                12
            } else {
                7
            }
        },
        None => 7,
    }
}

pub open spec fn members_total(groups: Seq<Vec<usize>>) -> nat
    decreases groups.len(),
{
    if groups.len() == 0 {
        0
    } else {
        members_total(groups.drop_last()) + groups.last()@.len()
    }
}

/// Number of duplicate groups and of photos flagged in them.
pub fn dup_summary(groups: &Vec<Vec<usize>>) -> (d: DupResult)
    requires
        members_total(groups@) <= usize::MAX,
    ensures
        d.groups == groups@.len(),
        d.flagged == members_total(groups@),
{
    let mut flagged: usize = 0;
    let mut i: usize = 0;
    while i < groups.len()
        invariant
            i <= groups@.len(),
            members_total(groups@) <= usize::MAX,
            flagged == members_total(groups@.take(i as int)),
        decreases groups@.len() - i,
    {
        proof {
            assert(groups@.take(i + 1).drop_last() =~= groups@.take(i as int));
            lemma_members_total_prefix(groups@, i + 1);
        }
        flagged = flagged + groups[i].len();
        i = i + 1;
    }
    assert(groups@.take(i as int) =~= groups@);
    DupResult { groups: groups.len(), flagged }
}

proof fn lemma_members_total_prefix(g: Seq<Vec<usize>>, k: int)
    requires
        0 <= k <= g.len(),
    ensures
        members_total(g.take(k)) <= members_total(g),
    decreases g.len(),
{
    if k < g.len() {
        assert(g.drop_last().take(k) =~= g.take(k));
        lemma_members_total_prefix(g.drop_last(), k);
    } else {
        assert(g.take(k) =~= g);
    }
}

} // verus!
