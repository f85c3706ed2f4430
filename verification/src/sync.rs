use vstd::prelude::*;

use crate::db::{set_sync, upsert_state, Database};
use crate::skill::{opt_view, views_of, Skill, SkillView};

verus! {

/// Base address of the skills.sh registry API.
pub fn api_base() -> (s: &'static str)
    ensures
        s@ == "https://skills.sh"@,
{
    "https://skills.sh"
}

/// The sequence with every `/` replaced by `__`.
pub open spec fn replace_slash_spec(s: Seq<char>) -> Seq<char>
    decreases s.len(),
{
    if s.len() == 0 {
        Seq::empty()
    } else {
        replace_slash_spec(s.drop_last()) + (if s.last() == '/' {
            seq!['_', '_']
        } else {
            seq![s.last()]
        })
    }
}

/// Position of the last `/`, or -1 when there is none.
pub open spec fn last_slash(s: Seq<char>) -> int
    decreases s.len(),
{
    if s.len() == 0 {
        -1
    } else if s.last() == '/' {
        s.len() - 1
    } else {
        last_slash(s.drop_last())
    }
}

/// What follows the last `/`; the whole sequence when there is none.
pub open spec fn after_last_slash(s: Seq<char>) -> Seq<char> {
    s.subrange(last_slash(s) + 1, s.len() as int)
}

/// A copy of the text with every `/` replaced by `__` (the slug form of a
/// hierarchical external identifier).
pub fn replace_slashes(s: &str) -> (r: String)
    ensures
        r@ == replace_slash_spec(s@),
{
    let n = s.unicode_len();
    let mut out = String::new();
    let mut i: usize = 0;
    proof {
        assert(s@.take(0) =~= Seq::<char>::empty());
    }
    while i < n
        invariant
            n == s@.len(),
            0 <= i <= n,
            out@ == replace_slash_spec(s@.take(i as int)),
        decreases n - i,
    {
        proof {
            assert(s@.take(i + 1 as int).drop_last() =~= s@.take(i as int));
            assert(s@.take(i + 1 as int).last() == s@[i as int]);
        }
        let c = s.get_char(i);
        if c == '/' {
            out.append("__");
            proof {
                reveal_strlit("__");
                assert(("__")@ =~= seq!['_', '_']);
            }
        } else {
            let piece = s.substring_char(i, i + 1);
            out.append(piece);
            proof {
                assert(s@.subrange(i as int, i + 1 as int) =~= seq![s@[i as int]]);
            }
        }
        i = i + 1;
    }
    proof {
        assert(s@.take(n as int) =~= s@);
    }
    out
}

/// The text after the last `/`, or the whole text when none occurs (the
/// short form of a hierarchical external identifier).
pub fn tail_after_slash(s: &str) -> (r: String)
    ensures
        r@ == after_last_slash(s@),
{
    let n = s.unicode_len();
    let mut j: usize = n;
    proof {
        assert(s@.take(n as int) =~= s@);
    }
    while j > 0
        invariant
            n == s@.len(),
            0 <= j <= n,
            last_slash(s@) == last_slash(s@.take(j as int)),
            forall|x: int| j <= x < n ==> s@[x] != '/',
        decreases j,
    {
        let c = s.get_char(j - 1);
        proof {
            assert(s@.take(j as int).last() == s@[j - 1]);
            assert(s@.take(j as int).drop_last() =~= s@.take(j - 1));
        }
        if c == '/' {
            proof {
                assert(last_slash(s@.take(j as int)) == j - 1);
            }
            let r = s.substring_char(j, n);
            proof {
                assert(s@.subrange(j as int, n as int) =~= after_last_slash(s@));
            }
            return r.to_owned();
        }
        j = j - 1;
    }
    proof {
        assert(s@.take(0) =~= Seq::<char>::empty());
        assert(last_slash(s@) == -1);
        assert(s@.subrange(0, n as int) =~= s@);
    }
    let r = s.substring_char(0, n);
    r.to_owned()
}

/// Builds the normalized record a skills.sh catalog entry syncs as: the
/// slug is the external id with `/` written `__`; a known source wins a
/// repository tree address and a `From <source>` description, an unknown
/// one the catalog's own page; popularity is the install count; the
/// registry's entries are never marked trusted. The id is left to the
/// store, which assigns it on first upsert.
pub fn normalize_skillssh_record(
    ext_id: &String,
    name: &String,
    installs: i64,
    top_source: &Option<String>,
    now: i64,
) -> (r: Skill)
    ensures
        r@.id == 0,
        r@.slug == replace_slash_spec(ext_id@),
        r@.name == name@,
        r@.registry == "skillssh"@,
        r@.skill_md.len() == 0,
        r@.version is None,
        r@.stars == installs as int,
        !r@.trusted,
        r@.updated_at == now as int,
        ({
            let src = match top_source {
                Some(s) => s@,
                None => Seq::<char>::empty(),
            };
            if src.len() > 0 {
                r@.github_url == "https://github.com/"@ + src + "/tree/main/skills/"@
                    + after_last_slash(ext_id@) && r@.description == "From "@ + src
            } else {
                r@.github_url == "https://skills.sh/skills/"@ + ext_id@ && r@.description.len()
                    == 0
            }
        }),
{
    let has_source = match top_source {
        Some(s) => s.as_str().unicode_len() > 0,
        None => false,
    };
    let (github_url, description) = if has_source {
        let src = match top_source {
            Some(s) => s.as_str(),
            None => "",
        };
        let skill_id = tail_after_slash(ext_id.as_str());
        let mut url = String::from_str("https://github.com/");
        url.append(src);
        url.append("/tree/main/skills/");
        url.append(skill_id.as_str());
        let mut desc = String::from_str("From ");
        desc.append(src);
        (url, desc)
    } else {
        let mut url = String::from_str("https://skills.sh/skills/");
        url.append(ext_id.as_str());
        (url, String::new())
    };
    proof {
        match top_source {
            Some(s) => {
                if s@.len() == 0 {
                    reveal_strlit("");
                }
            },
            None => {
            },
        }
    }
    Skill {
        id: 0,
        slug: replace_slashes(ext_id.as_str()),
        name: name.clone(),
        registry: String::from_str("skillssh"),
        description: description,
        skill_md: String::new(),
        github_url: github_url,
        version: None,
        stars: installs,
        trusted: false,
        updated_at: now,
    }
}

/// The store state after upserting a batch of records in order.
pub open spec fn upsert_fold(s: Seq<SkillView>, next: int, records: Seq<SkillView>) -> (
    Seq<SkillView>,
    int,
)
    decreases records.len(),
{
    if records.len() == 0 {
        (s, next)
    } else {
        let prev = upsert_fold(s, next, records.drop_last());
        let step = upsert_state(prev.0, prev.1, records.last());
        (step.0, step.1)
    }
}

/// The next fresh id never shrinks and grows by at most one per record.
pub proof fn lemma_upsert_fold_next(s: Seq<SkillView>, next: int, records: Seq<SkillView>)
    ensures
        next <= upsert_fold(s, next, records).1 <= next + records.len(),
    decreases records.len(),
{
    if records.len() > 0 {
        lemma_upsert_fold_next(s, next, records.drop_last());
    }
}

/// Reconciles one registry's already-normalized batch into the store: each
/// record is upserted in order, and the registry's sync state is then set
/// to the pass's timestamp and validator. Returns how many records were
/// written; in this store an upsert cannot fail, so that is the whole
/// batch. The validator is stored but never consulted.
pub fn sync_records(
    db: &mut Database,
    records: &Vec<Skill>,
    registry_name: &String,
    now: i64,
    validator: Option<String>,
) -> (count: usize)
    requires
        old(db).wf(),
        old(db).next_id_spec() + records@.len() <= i64::MAX as int,
    ensures
        final(db).wf(),
        count == records@.len(),
        final(db).skills() == upsert_fold(
            old(db).skills(),
            old(db).next_id_spec(),
            views_of(records@),
        ).0,
        final(db).next_id_spec() == upsert_fold(
            old(db).skills(),
            old(db).next_id_spec(),
            views_of(records@),
        ).1,
        final(db).sync_states() == set_sync(
            old(db).sync_states(),
            registry_name@,
            now as int,
            opt_view(validator),
        ),
        final(db).embeddings() == old(db).embeddings(),
{
    let n = records.len();
    let mut i: usize = 0;
    proof {
        assert(views_of(records@).take(0) =~= Seq::<SkillView>::empty());
    }
    while i < n
        invariant
            db.wf(),
            n == records@.len(),
            0 <= i <= n,
            old(db).wf(),
            old(db).next_id_spec() + records@.len() <= i64::MAX as int,
            db.skills() == upsert_fold(
                old(db).skills(),
                old(db).next_id_spec(),
                views_of(records@).take(i as int),
            ).0,
            db.next_id_spec() == upsert_fold(
                old(db).skills(),
                old(db).next_id_spec(),
                views_of(records@).take(i as int),
            ).1,
            db.sync_states() == old(db).sync_states(),
            db.embeddings() == old(db).embeddings(),
        decreases n - i,
    {
        proof {
            let rv = views_of(records@);
            lemma_upsert_fold_next(old(db).skills(), old(db).next_id_spec(), rv.take(i as int));
            assert(rv.take(i as int).len() == i as int);
            assert(rv.take(i + 1 as int).drop_last() =~= rv.take(i as int));
            assert(rv.take(i + 1 as int).last() == rv[i as int]);
        }
        let _ = db.upsert_skill(&records[i]);
        i = i + 1;
    }
    proof {
        assert(views_of(records@).take(n as int) =~= views_of(records@));
    }
    db.set_last_sync(registry_name, now, validator);
    n
}

} // verus!
