use vstd::prelude::*;

verus! {

/// One catalog entry describing an installable skill package.
///
/// Identity is the pair (registry, slug); the numeric id is assigned by the
/// store on first insert and is stable across later merges.
pub struct Skill {
    pub id: i64,
    pub slug: String,
    pub name: String,
    pub registry: String,
    pub description: String,
    pub skill_md: String,
    pub github_url: String,
    pub version: Option<String>,
    pub stars: i64,
    pub trusted: bool,
    pub updated_at: i64,
}

/// Mathematical image of a `Skill`: every text field as a sequence of
/// characters, every integer as `int`. Contracts speak of this type.
#[verifier::ext_equal]
pub struct SkillView {
    pub id: int,
    pub slug: Seq<char>,
    pub name: Seq<char>,
    pub registry: Seq<char>,
    pub description: Seq<char>,
    pub skill_md: Seq<char>,
    pub github_url: Seq<char>,
    pub version: Option<Seq<char>>,
    pub stars: int,
    pub trusted: bool,
    pub updated_at: int,
}

impl View for Skill {
    type V = SkillView;

    open spec fn view(&self) -> SkillView {
        SkillView {
            id: self.id as int,
            slug: self.slug@,
            name: self.name@,
            registry: self.registry@,
            description: self.description@,
            skill_md: self.skill_md@,
            github_url: self.github_url@,
            version: match self.version {
                Some(v) => Some(v@),
                None => None,
            },
            stars: self.stars as int,
            trusted: self.trusted,
            updated_at: self.updated_at as int,
        }
    }
}

/// The views of a sequence of records, in order.
pub open spec fn views_of(s: Seq<Skill>) -> Seq<SkillView> {
    s.map(|i: int, x: Skill| x@)
}

/// The view of an optional string.
pub open spec fn opt_view(o: Option<String>) -> Option<Seq<char>> {
    match o {
        Some(v) => Some(v@),
        None => None,
    }
}

/// Copies an optional string, preserving its mathematical value.
pub fn clone_opt_string(v: &Option<String>) -> (r: Option<String>)
    ensures
        (match (v, &r) {
            (Some(a), Some(b)) => a@ == b@,
            (None, None) => true,
            _ => false,
        }),
{
    match v {
        Some(s) => Some(s.clone()),
        None => None,
    }
}

/// Copies a record; the copy has the same view as the original.
pub fn clone_skill(s: &Skill) -> (r: Skill)
    ensures
        r@ == s@,
{
    let r = Skill {
        id: s.id,
        slug: s.slug.clone(),
        name: s.name.clone(),
        registry: s.registry.clone(),
        description: s.description.clone(),
        skill_md: s.skill_md.clone(),
        github_url: s.github_url.clone(),
        version: clone_opt_string(&s.version),
        stars: s.stars,
        trusted: s.trusted,
        updated_at: s.updated_at,
    };
    r
}

} // verus!
