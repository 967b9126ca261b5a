//! Row-level metadata types.
use vstd::prelude::*;

use crate::text::{
    chars_of, char_alphanumeric, decimal_chars, is_alphanumeric, join_chars, join_with,
    push_decimal, split_chars, split_on, str_lowercase, string_from_chars, to_lowercase,
};

verus! {

/// Reference metadata for a memory — bibliographic or web source coordinates.
///
/// Works for books (`book`, `author`, `volume`, `chapter`, `page`, `section`)
/// and web pages / files (`book` = page title, `url` = web URL, `filename` =
/// local path). Numeric fields are flattened to decimal string tags by
/// [`MemoryRef::to_tags`]; when both `book` and `chapter` are present a
/// namespaced `chapter_id` tag is also emitted (e.g.
/// `"the_count_of_monte_cristo_chapter_5"`).
#[derive(Debug, Clone, PartialEq, Eq, Default)]
pub struct MemoryRef {
    /// Title of the book or webpage.
    pub book: Option<String>,
    pub author: Option<String>,
    pub volume: Option<u32>,
    pub chapter: Option<u32>,
    pub page: Option<u32>,
    pub section: Option<String>,
    /// Web URL for this source (use `filename` for local files).
    pub url: Option<String>,
    /// Local file path or filename for this source (use `url` for web).
    pub filename: Option<String>,
}

/// Slug of a title: lowercase, every non-alphanumeric character becomes a
/// separator, and the non-empty runs are joined with `_`.
pub open spec fn slug_spec(s: Seq<char>) -> Seq<char> {
    lowercase_slug(str_lowercase(s))
}

/// Slug of an already lowercased title.
pub open spec fn lowercase_slug(lower: Seq<char>) -> Seq<char> {
    let mapped = lower.map_values(|c: char| if char_alphanumeric(c) { c } else { '_' });
    join_with(split_on(mapped, '_').filter(|p: Seq<char>| p.len() > 0), "_"@)
}

pub fn slugify(s: &str) -> (r: String)
    ensures
        r@ == slug_spec(s@),
{
    let lower_s = to_lowercase(s);
    slugify_lowercased(lower_s.as_str())
}

/// Slug of a title that is already lowercase.
pub fn slugify_lowercased(lower_text: &str) -> (r: String)
    ensures
        r@ == lowercase_slug(lower_text@),
{
    let lower = chars_of(lower_text);
    let ghost mapped = lower@.map_values(|c: char| if char_alphanumeric(c) { c } else { '_' });
    let mut m: Vec<char> = Vec::new();
    let mut i: usize = 0;
    while i < lower.len()
        invariant
            i <= lower.len(),
            mapped == lower@.map_values(|c: char| if char_alphanumeric(c) { c } else { '_' }),
            m@ == mapped.subrange(0, i as int),
        decreases lower.len() - i,
    {
        let c = lower[i];
        if is_alphanumeric(c) {
            m.push(c);
        } else {
            m.push('_');
        }
        assert(m@ =~= mapped.subrange(0, i + 1));
        i = i + 1;
    }
    assert(mapped.subrange(0, lower@.len() as int) =~= mapped);
    let pieces = split_chars(m.as_slice(), '_');
    let ghost pv = pieces@.map_values(|v: Vec<char>| v@);
    let ghost keepf = |p: Seq<char>| p.len() > 0;
    let mut kept: Vec<Vec<char>> = Vec::new();
    let mut j: usize = 0;
    while j < pieces.len()
        invariant
            j <= pieces.len(),
            pv == pieces@.map_values(|v: Vec<char>| v@),
            keepf == (|p: Seq<char>| p.len() > 0),
            kept@.map_values(|v: Vec<char>| v@) == pv.subrange(0, j as int).filter(keepf),
        decreases pieces.len() - j,
    {
        let ghost before = kept@;
        proof {
            pv.subrange(0, j as int).lemma_filter_push(pv[j as int], keepf);
            assert(pv.subrange(0, j + 1) =~= pv.subrange(0, j as int).push(pv[j as int]));
        }
        if pieces[j].len() > 0 {
            kept.push(pieces[j].clone());
            proof {
                before.lemma_push_map_commute(|v: Vec<char>| v@, kept@.last());
            }
        }
        j = j + 1;
    }
    assert(pv.subrange(0, pieces@.len() as int) =~= pv);
    join_chars(&kept, "_")
}

/// `Some(s@)` of an optional string.
pub open spec fn opt_view(o: Option<String>) -> Option<Seq<char>> {
    match o {
        Some(s) => Some(s@),
        None => None,
    }
}

/// Adds a tag when the value is present.
pub open spec fn tag_if(
    tags: Seq<(Seq<char>, Seq<char>)>,
    key: Seq<char>,
    v: Option<Seq<char>>,
) -> Seq<(Seq<char>, Seq<char>)> {
    match v {
        Some(x) => tags.push((key, x)),
        None => tags,
    }
}

pub open spec fn num_view(v: Option<u32>) -> Option<Seq<char>> {
    match v {
        Some(n) => Some(decimal_chars(n as nat)),
        None => None,
    }
}

/// The tags of a reference, in field order; `chapter_id` follows `chapter`
/// when a book is also present.
pub open spec fn ref_tags(r: MemoryRef) -> Seq<(Seq<char>, Seq<char>)> {
    let t0 = Seq::<(Seq<char>, Seq<char>)>::empty();
    let t1 = tag_if(t0, "book"@, opt_view(r.book));
    let t2 = tag_if(t1, "author"@, opt_view(r.author));
    let t3 = tag_if(t2, "volume"@, num_view(r.volume));
    let t4 = tag_if(t3, "chapter"@, num_view(r.chapter));
    let t5 = match (r.chapter, r.book) {
        (Some(v), Some(b)) => t4.push(
            ("chapter_id"@, slug_spec(b@) + "_chapter_"@ + decimal_chars(v as nat)),
        ),
        _ => t4,
    };
    let t6 = tag_if(t5, "page"@, num_view(r.page));
    let t7 = tag_if(t6, "section"@, opt_view(r.section));
    let t8 = tag_if(t7, "url"@, opt_view(r.url));
    tag_if(t8, "filename"@, opt_view(r.filename))
}

pub open spec fn tags_view(v: Seq<(String, String)>) -> Seq<(Seq<char>, Seq<char>)> {
    v.map_values(|p: (String, String)| (p.0@, p.1@))
}

fn push_tag(tags: &mut Vec<(String, String)>, key: &str, value: String)
    ensures
        tags_view(final(tags)@) == tags_view(old(tags)@).push((key@, value@)),
{
    let k = key.to_owned();
    let ghost before = tags@;
    tags.push((k, value));
    proof {
        before.lemma_push_map_commute(|p: (String, String)| (p.0@, p.1@), (k, value));
    }
}

fn push_opt_string(tags: &mut Vec<(String, String)>, key: &str, v: &Option<String>)
    ensures
        tags_view(final(tags)@) == tag_if(tags_view(old(tags)@), key@, opt_view(*v)),
{
    if let Some(s) = v {
        push_tag(tags, key, s.clone());
    }
}

fn push_opt_num(tags: &mut Vec<(String, String)>, key: &str, v: Option<u32>)
    ensures
        tags_view(final(tags)@) == tag_if(tags_view(old(tags)@), key@, num_view(v)),
{
    if let Some(n) = v {
        let mut s = String::new();
        push_decimal(&mut s, n as u64);
        assert(s@ =~= decimal_chars(n as nat));
        push_tag(tags, key, s);
    }
}

impl MemoryRef {
    pub open spec fn is_empty_spec(&self) -> bool {
        self.book.is_none() && self.author.is_none() && self.volume.is_none()
            && self.chapter.is_none() && self.page.is_none() && self.section.is_none()
            && self.url.is_none() && self.filename.is_none()
    }

    pub fn is_empty(&self) -> (r: bool)
        ensures
            r == self.is_empty_spec(),
    {
        self.book.is_none() && self.author.is_none() && self.volume.is_none()
            && self.chapter.is_none() && self.page.is_none() && self.section.is_none()
            && self.url.is_none() && self.filename.is_none()
    }

    /// Flatten reference fields to `(tag_key, tag_value)` pairs for the
    /// tag index.
    pub fn to_tags(&self) -> (r: Vec<(String, String)>)
        ensures
            tags_view(r@) == ref_tags(*self),
    {
        let mut tags: Vec<(String, String)> = Vec::new();
        assert(tags_view(tags@) =~= Seq::<(Seq<char>, Seq<char>)>::empty());
        push_opt_string(&mut tags, "book", &self.book);
        push_opt_string(&mut tags, "author", &self.author);
        push_opt_num(&mut tags, "volume", self.volume);
        push_opt_num(&mut tags, "chapter", self.chapter);
        if let Some(v) = self.chapter {
            if let Some(b) = &self.book {
                let mut id = slugify(b.as_str());
                id.append("_chapter_");
                push_decimal(&mut id, v as u64);
                push_tag(&mut tags, "chapter_id", id);
            }
        }
        push_opt_num(&mut tags, "page", self.page);
        push_opt_string(&mut tags, "section", &self.section);
        push_opt_string(&mut tags, "url", &self.url);
        push_opt_string(&mut tags, "filename", &self.filename);
        tags
    }
}

#[derive(Debug, Clone, Copy, PartialEq, Eq, Structural)]
pub enum DistanceMetric {
    Cosine,
    L2,
}

#[derive(Debug, Clone, PartialEq)]
pub struct QueryResult {
    pub ids: Vec<u32>,
}

/// The largest of some row ids, 0 where there are none.
pub fn largest_id(ids: &[u32]) -> (r: u32)
    ensures
        ids@.len() == 0 ==> r == 0,
        ids@.len() > 0 ==> ids@.contains(r),
        forall|i: int| 0 <= i < ids@.len() ==> ids@[i] <= r,
{
    let mut m: u32 = 0;
    let mut i: usize = 0;
    while i < ids.len()
        invariant
            i <= ids@.len(),
            i == 0 ==> m == 0,
            i > 0 ==> ids@.subrange(0, i as int).contains(m),
            forall|j: int| 0 <= j < i ==> ids@[j] <= m,
        decreases ids.len() - i,
    {
        if i == 0 || ids[i] > m {
            m = ids[i];
            assert(ids@.subrange(0, i + 1)[i as int] == m);
        } else {
            proof {
                let k = choose|k: int| 0 <= k < i && ids@.subrange(0, i as int)[k] == m;
                assert(ids@.subrange(0, i + 1)[k] == m);
            }
        }
        i = i + 1;
    }
    proof {
        if ids@.len() > 0 {
            assert(ids@.subrange(0, i as int) =~= ids@);
        }
    }
    m
}

} // verus!
