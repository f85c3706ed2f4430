use vstd::prelude::*;

use crate::skill::Skill;

verus! {

/// One raw hit of the full-text index engine: the stored fields of the
/// matching document and the engine's relevance score in thousandths,
/// highest first. This is the shape the index layer emits; the retrieval
/// service emits its own, richer shape.
pub struct SearchResult {
    pub slug: String,
    pub name: String,
    pub description: String,
    pub registry: String,
    pub score: i64,
}

/// Mathematical image of a raw index hit.
#[verifier::ext_equal]
pub struct HitView {
    pub slug: Seq<char>,
    pub name: Seq<char>,
    pub description: Seq<char>,
    pub registry: Seq<char>,
    pub score: int,
}

impl View for SearchResult {
    type V = HitView;

    open spec fn view(&self) -> HitView {
        HitView {
            slug: self.slug@,
            name: self.name@,
            description: self.description@,
            registry: self.registry@,
            score: self.score as int,
        }
    }
}

/// The views of a sequence of raw hits, in order.
pub open spec fn hit_views(h: Seq<SearchResult>) -> Seq<HitView> {
    h.map(|i: int, x: SearchResult| x@)
}

impl SearchResult {
    /// The hit's natural identity, written `registry:slug`.
    pub fn unique_key(&self) -> (k: String)
        ensures
            k@ == self.registry@ + ":"@ + self.slug@,
    {
        let mut k = self.registry.clone();
        k.append(":");
        k.append(self.slug.as_str());
        k
    }
}

/// The searchable body of the index document built for one record: display
/// name, short description and long-form text, space-separated.
pub fn document_content(s: &Skill) -> (c: String)
    ensures
        c@ == s.name@ + " "@ + s.description@ + " "@ + s.skill_md@,
{
    let mut c = s.name.clone();
    c.append(" ");
    c.append(s.description.as_str());
    c.append(" ");
    c.append(s.skill_md.as_str());
    c
}

/// Number of leading characters of the long-form text that feed the
/// embedding input.
pub open spec fn md_preview_len(md: Seq<char>) -> int {
    if md.len() < 1000 {
        md.len() as int
    } else {
        1000
    }
}

/// The text handed to the vector encoder for one record: display name,
/// short description and the first thousand characters of the long-form
/// text, newline-separated. Batch boundaries never see this text; it is a
/// function of the record alone.
pub fn embedding_text(s: &Skill) -> (t: String)
    ensures
        t@ == s.name@ + "\n"@ + s.description@ + "\n"@ + s.skill_md@.take(
            md_preview_len(s.skill_md@),
        ),
{
    let md = s.skill_md.as_str();
    let ml = md.unicode_len();
    let cut = if ml < 1000 {
        ml
    } else {
        1000
    };
    let pre = md.substring_char(0, cut);
    let mut t = s.name.clone();
    t.append("\n");
    t.append(s.description.as_str());
    t.append("\n");
    t.append(pre);
    proof {
        assert(s.skill_md@.subrange(0, cut as int) =~= s.skill_md@.take(
            md_preview_len(s.skill_md@),
        ));
    }
    t
}

} // verus!
