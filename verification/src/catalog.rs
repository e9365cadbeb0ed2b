use vstd::prelude::*;
use crate::text::{law_trim_idempotent, split_on, split_text, trim, trimmed};

verus! {

/// An imported folder.
pub struct Folder {
    pub id: i64,
    pub path: String,
}

/// A saved develop preset.
pub struct Preset {
    pub id: i64,
    pub name: String,
}

/// A photo as the library grid lists it.
pub struct Photo {
    pub id: i64,
    pub folder_id: i64,
    pub path: String,
    pub filename: String,
    pub ext: String,
    pub is_raw: bool,
    pub rating: i64,
    pub flag: i64,
    pub color_label: Option<String>,
    pub width: Option<i64>,
    pub height: Option<i64>,
    pub captured_at: Option<String>,
    pub has_edits: bool,
    pub tags: Vec<String>,
    pub dup_group: Option<i64>,
    pub dup_best: bool,
}

pub open spec fn clamp_i64(v: int, lo: int, hi: int) -> int {
    if v < lo {
        lo
    } else if v > hi {
        hi
    } else {
        v
    }
}

/// The star rating stored for a requested one: 0 (none) to 5.
pub fn stored_rating(rating: i64) -> (r: i64)
    ensures
        r == clamp_i64(rating as int, 0, 5),
{
    if rating < 0 {
        0
    } else if rating > 5 {
        5
    } else {
        rating
    }
}

/// The pick flag stored for a requested one: 0 (none), 1 (pick) or 2
/// (reject).
pub fn stored_flag(flag: i64) -> (r: i64)
    ensures
        r == clamp_i64(flag as int, 0, 2),
{
    if flag < 0 {
        0
    } else if flag > 2 {
        2
    } else {
        flag
    }
}

/// Storing a rating or flag that was already stored changes nothing.
pub proof fn law_rating_and_flag_clamps_settle(v: int)
    ensures
        0 <= clamp_i64(v, 0, 5) <= 5,
        clamp_i64(clamp_i64(v, 0, 5), 0, 5) == clamp_i64(v, 0, 5),
        0 <= clamp_i64(v, 0, 2) <= 2,
        clamp_i64(clamp_i64(v, 0, 2), 0, 2) == clamp_i64(v, 0, 2),
{
}

/// The tags a photo ends up with: each requested tag trimmed, blank ones
/// dropped, order kept.
pub open spec fn cleaned_tags(tags: Seq<Seq<char>>) -> Seq<Seq<char>>
    decreases tags.len(),
{
    if tags.len() == 0 {
        Seq::empty()
    } else {
        let rest = cleaned_tags(tags.drop_last());
        let t = trimmed(tags.last());
        if t.len() == 0 {
            rest
        } else {
            rest.push(t)
        }
    }
}

pub open spec fn views(v: Seq<String>) -> Seq<Seq<char>> {
    v.map_values(|s: String| s@)
}

/// The tag names to store for a photo.
pub fn clean_tags(tags: &Vec<String>) -> (out: Vec<String>)
    ensures
        views(out@) == cleaned_tags(views(tags@)),
{
    let mut out: Vec<String> = Vec::new();
    let mut i: usize = 0;
    while i < tags.len()
        invariant
            i <= tags@.len(),
            views(out@) == cleaned_tags(views(tags@.take(i as int))),
        decreases tags@.len() - i,
    {
        let t = trim(tags[i].as_str());
        let ghost before = views(out@);
        proof {
            assert(views(tags@.take(i + 1)).drop_last() =~= views(tags@.take(i as int)));
            assert(views(tags@.take(i + 1)).last() == tags@[i as int]@);
        }
        if t.unicode_len() > 0 {
            out.push(String::from_str(t));
            assert(views(out@) =~= before.push(t@));
        }
        i = i + 1;
    }
    assert(tags@.take(i as int) =~= tags@);
    out
}

proof fn lemma_cleaned_are_clean(tags: Seq<Seq<char>>)
    ensures
        forall|k: int| 0 <= k < cleaned_tags(tags).len() ==> #[trigger] trimmed(cleaned_tags(tags)[k]) == cleaned_tags(tags)[k]
            && cleaned_tags(tags)[k].len() > 0,
    decreases tags.len(),
{
    if tags.len() > 0 {
        lemma_cleaned_are_clean(tags.drop_last());
        law_trim_idempotent(tags.last());
        let rest = cleaned_tags(tags.drop_last());
        let c = cleaned_tags(tags);
        assert forall|k: int| 0 <= k < c.len() implies #[trigger] trimmed(c[k]) == c[k] && c[k].len() > 0 by {
            if k < rest.len() {
                assert(c[k] == rest[k]);
            }
        }
    }
}

proof fn lemma_clean_fixed(tags: Seq<Seq<char>>)
    requires
        forall|k: int| 0 <= k < tags.len() ==> #[trigger] trimmed(tags[k]) == tags[k] && tags[k].len() > 0,
    ensures
        cleaned_tags(tags) == tags,
    decreases tags.len(),
{
    if tags.len() > 0 {
        lemma_clean_fixed(tags.drop_last());
        assert(trimmed(tags.last()) == tags.last());
        assert(tags.drop_last().push(tags.last()) =~= tags);
    }
}

/// Cleaning an already cleaned tag list changes nothing, so saving the tags
/// a photo has gives it the same tags.
pub proof fn law_clean_tags_idempotent(tags: Seq<Seq<char>>)
    ensures
        cleaned_tags(cleaned_tags(tags)) == cleaned_tags(tags),
{
    lemma_cleaned_are_clean(tags);
    lemma_clean_fixed(cleaned_tags(tags));
}

/// The separator of the catalog's aggregated tag list (U+001F).
pub open spec fn tag_separator() -> char {
    '\u{1f}'
}

/// The tags of a photo from the catalog's aggregated tag list: none when
/// the photo has no tags, else the pieces between separators.
pub fn tags_from_list(list: Option<&str>) -> (tags: Vec<String>)
    ensures
        views(tags@) == match list {
            None => Seq::<Seq<char>>::empty(),
            Some(s) => split_on(s@, tag_separator()),
        },
{
    match list {
        None => {
            let v: Vec<String> = Vec::new();
            assert(views(v@) =~= Seq::<Seq<char>>::empty());
            v
        },
        Some(s) => split_text(s, '\u{1f}'),
    }
}

} // verus!
