//! The dependency list of the manifest and the merge of settings into it.
use vstd::prelude::*;

use crate::setting::{opt_view, settings_view, ServiceSetting, SettingView};
use crate::text::{first_index, lemma_first_index_at, lemma_first_index_bounds};

verus! {

/// One dependency of the manifest.
#[derive(Debug, PartialEq, Eq)]
pub struct Requirement {
    pub name: String,
    pub version: String,
    pub repository: Option<String>,
}

pub struct RequirementView {
    pub name: Seq<char>,
    pub version: Seq<char>,
    pub repository: Option<Seq<char>>,
}

impl View for Requirement {
    type V = RequirementView;

    open spec fn view(&self) -> RequirementView {
        RequirementView {
            name: self.name@,
            version: self.version@,
            repository: opt_view(self.repository),
        }
    }
}

pub open spec fn requirements_view(v: Seq<Requirement>) -> Seq<RequirementView> {
    v.map_values(|r: Requirement| r@)
}

pub open spec fn has_name(name: Seq<char>) -> spec_fn(RequirementView) -> bool {
    |r: RequirementView| r.name == name
}

/// Position of the first entry called `name`, or the length when there is none.
pub open spec fn find_name(reqs: Seq<RequirementView>, name: Seq<char>) -> int {
    first_index(reqs, has_name(name))
}

/// The list after one setting: a version updates the first entry of that
/// name (its repository becomes `repo` when one is given) or appends a new
/// entry; no version removes the first entry of that name, if any.
pub open spec fn apply_one(
    reqs: Seq<RequirementView>,
    s: SettingView,
    repo: Option<Seq<char>>,
) -> Seq<RequirementView> {
    let i = find_name(reqs, s.name);
    match s.version {
        Some(v) => if 0 <= i < reqs.len() {
            reqs.update(
                i,
                RequirementView {
                    name: reqs[i].name,
                    version: v,
                    repository: if repo is Some {
                        repo
                    } else {
                        reqs[i].repository
                    },
                },
            )
        } else {
            reqs.push(RequirementView { name: s.name, version: v, repository: repo })
        },
        None => if 0 <= i < reqs.len() {
            reqs.remove(i)
        } else {
            reqs
        },
    }
}

/// The list after each setting in turn.
pub open spec fn apply_all(
    reqs: Seq<RequirementView>,
    settings: Seq<SettingView>,
    repo: Option<Seq<char>>,
) -> Seq<RequirementView>
    decreases settings.len(),
{
    if settings.len() == 0 {
        reqs
    } else {
        apply_one(apply_all(reqs, settings.drop_last(), repo), settings.last(), repo)
    }
}

pub open spec fn names_unique(reqs: Seq<RequirementView>) -> bool {
    forall|i: int, j: int|
        0 <= i < reqs.len() && 0 <= j < reqs.len() && i != j ==> reqs[i].name != reqs[j].name
}

/// Setting a version for a name that the list does not hold appends exactly
/// one entry, made of that name, that version and the given repository, and
/// leaves every earlier entry as it was.
pub proof fn lemma_add_absent(reqs: Seq<RequirementView>, s: SettingView, repo: Option<Seq<char>>)
    requires
        s.version is Some,
        forall|j: int| 0 <= j < reqs.len() ==> (#[trigger] reqs[j]).name != s.name,
    ensures
        apply_one(reqs, s, repo).len() == reqs.len() + 1,
        apply_one(reqs, s, repo).subrange(0, reqs.len() as int) == reqs,
        apply_one(reqs, s, repo).last() == (RequirementView {
            name: s.name,
            version: s.version->Some_0,
            repository: repo,
        }),
{
    lemma_first_index_at(reqs, has_name(s.name), reqs.len() as int);
    assert(apply_one(reqs, s, repo).subrange(0, reqs.len() as int) =~= reqs);
}

/// Removing a name that the list holds takes out exactly its first entry and
/// keeps the order of all the others.
pub proof fn lemma_remove_present(
    reqs: Seq<RequirementView>,
    s: SettingView,
    repo: Option<Seq<char>>,
    k: int,
)
    requires
        s.version is None,
        0 <= k < reqs.len(),
        reqs[k].name == s.name,
    ensures
        ({
            let i = find_name(reqs, s.name);
            let r = apply_one(reqs, s, repo);
            &&& 0 <= i <= k
            &&& reqs[i].name == s.name
            &&& forall|j: int| 0 <= j < i ==> (#[trigger] reqs[j]).name != s.name
            &&& r.len() == reqs.len() - 1
            &&& forall|j: int| 0 <= j < i ==> #[trigger] r[j] == reqs[j]
            &&& forall|j: int| i <= j < r.len() ==> #[trigger] r[j] == reqs[j + 1]
        }),
{
    lemma_first_index_bounds(reqs, has_name(s.name));
    let i = find_name(reqs, s.name);
    if i > k {
        assert(!has_name(s.name)(reqs[k]));
    }
}

/// Removing a name that the list does not hold leaves the list unchanged.
pub proof fn lemma_remove_absent(reqs: Seq<RequirementView>, s: SettingView, repo: Option<Seq<char>>)
    requires
        s.version is None,
        forall|j: int| 0 <= j < reqs.len() ==> (#[trigger] reqs[j]).name != s.name,
    ensures
        apply_one(reqs, s, repo) == reqs,
{
    lemma_first_index_at(reqs, has_name(s.name), reqs.len() as int);
}

/// A run of removals of names that the list does not hold leaves the list
/// unchanged.
pub proof fn lemma_remove_absent_all(
    reqs: Seq<RequirementView>,
    settings: Seq<SettingView>,
    repo: Option<Seq<char>>,
)
    requires
        forall|k: int| 0 <= k < settings.len() ==> (#[trigger] settings[k]).version is None,
        forall|k: int, j: int|
            0 <= k < settings.len() && 0 <= j < reqs.len() ==> (#[trigger] reqs[j]).name
                != (#[trigger] settings[k]).name,
    ensures
        apply_all(reqs, settings, repo) == reqs,
    decreases settings.len(),
{
    if settings.len() > 0 {
        let k = settings.len() - 1;
        lemma_remove_absent_all(reqs, settings.drop_last(), repo);
        assert forall|j: int| 0 <= j < reqs.len() implies (#[trigger] reqs[j]).name
            != settings.last().name by {
            assert(settings[k] == settings.last());
        }
        lemma_remove_absent(reqs, settings.last(), repo);
    }
}

/// Applying a setting keeps the names of the list distinct.
pub proof fn lemma_apply_keeps_names_unique(
    reqs: Seq<RequirementView>,
    s: SettingView,
    repo: Option<Seq<char>>,
)
    requires
        names_unique(reqs),
    ensures
        names_unique(apply_one(reqs, s, repo)),
{
    lemma_first_index_bounds(reqs, has_name(s.name));
    let i = find_name(reqs, s.name);
    let r = apply_one(reqs, s, repo);
    if s.version is Some && i == reqs.len() {
        assert forall|a: int, b: int|
            0 <= a < r.len() && 0 <= b < r.len() && a != b implies r[a].name != r[b].name by {
            if a == reqs.len() {
                assert(!has_name(s.name)(reqs[b]));
            } else if b == reqs.len() {
                assert(!has_name(s.name)(reqs[a]));
            }
        }
    } else if s.version is None && i < reqs.len() {
        assert forall|a: int, b: int|
            0 <= a < r.len() && 0 <= b < r.len() && a != b implies r[a].name != r[b].name by {
            let a0 = if a < i { a } else { a + 1 };
            let b0 = if b < i { b } else { b + 1 };
            assert(r[a] == reqs[a0] && r[b] == reqs[b0]);
        }
    }
}

/// Applying settings in turn keeps the names of the list distinct.
pub proof fn lemma_apply_all_keeps_names_unique(
    reqs: Seq<RequirementView>,
    settings: Seq<SettingView>,
    repo: Option<Seq<char>>,
)
    requires
        names_unique(reqs),
    ensures
        names_unique(apply_all(reqs, settings, repo)),
    decreases settings.len(),
{
    if settings.len() > 0 {
        lemma_apply_all_keeps_names_unique(reqs, settings.drop_last(), repo);
        lemma_apply_keeps_names_unique(apply_all(reqs, settings.drop_last(), repo), settings.last(), repo);
    }
}

fn clone_opt(o: &Option<String>) -> (r: Option<String>)
    ensures
        r == *o,
{
    match o {
        Some(s) => Some(s.clone()),
        None => None,
    }
}

/// Finds the first entry called `name`.
pub fn position_of(reqs: &Vec<Requirement>, name: &String) -> (r: usize)
    ensures
        r as int == find_name(requirements_view(reqs@), name@),
{
    let ghost rv = requirements_view(reqs@);
    let mut i: usize = 0;
    while i < reqs.len()
        invariant
            rv == requirements_view(reqs@),
            i <= reqs.len(),
            forall|j: int| 0 <= j < i ==> rv[j].name != name@,
        decreases reqs.len() - i,
    {
        if reqs[i].name == *name {
            proof {
                lemma_first_index_at(rv, has_name(name@), i as int);
            }
            return i;
        }
        i += 1;
    }
    proof {
        lemma_first_index_at(rv, has_name(name@), i as int);
    }
    i
}

/// Applies one setting to the list in place.
pub fn apply_setting(
    reqs: &mut Vec<Requirement>,
    setting: &ServiceSetting,
    default_repository: &Option<String>,
)
    ensures
        requirements_view(final(reqs)@) == apply_one(
            requirements_view(old(reqs)@),
            setting@,
            opt_view(*default_repository),
        ),
{
    let i = position_of(reqs, &setting.name);
    let ghost rv = requirements_view(reqs@);
    proof {
        lemma_first_index_bounds(rv, has_name(setting.name@));
    }
    match &setting.version {
        Some(v) => {
            if i < reqs.len() {
                let repository = match default_repository {
                    Some(r) => Some(r.clone()),
                    None => clone_opt(&reqs[i].repository),
                };
                let updated = Requirement {
                    name: reqs[i].name.clone(),
                    version: v.clone(),
                    repository,
                };
                reqs.set(i, updated);
                assert(requirements_view(reqs@) =~= apply_one(
                    rv,
                    setting@,
                    opt_view(*default_repository),
                ));
            } else {
                let added = Requirement {
                    name: setting.name.clone(),
                    version: v.clone(),
                    repository: clone_opt(default_repository),
                };
                reqs.push(added);
                assert(requirements_view(reqs@) =~= apply_one(
                    rv,
                    setting@,
                    opt_view(*default_repository),
                ));
            }
        },
        None => {
            if i < reqs.len() {
                reqs.remove(i);
                assert(requirements_view(reqs@) =~= apply_one(
                    rv,
                    setting@,
                    opt_view(*default_repository),
                ));
            }
        },
    }
}

/// Applies the settings in order to the dependency list.
pub fn apply_settings(
    requirements: Vec<Requirement>,
    settings: &Vec<ServiceSetting>,
    default_repository: &Option<String>,
) -> (r: Vec<Requirement>)
    ensures
        requirements_view(r@) == apply_all(
            requirements_view(requirements@),
            settings_view(settings@),
            opt_view(*default_repository),
        ),
{
    let ghost start = requirements_view(requirements@);
    let ghost sv = settings_view(settings@);
    let mut reqs = requirements;
    let mut i: usize = 0;
    while i < settings.len()
        invariant
            i <= settings.len(),
            sv == settings_view(settings@),
            requirements_view(reqs@) == apply_all(
                start,
                sv.subrange(0, i as int),
                opt_view(*default_repository),
            ),
        decreases settings.len() - i,
    {
        apply_setting(&mut reqs, &settings[i], default_repository);
        assert(sv.subrange(0, i + 1).drop_last() =~= sv.subrange(0, i as int));
        i += 1;
    }
    assert(sv.subrange(0, i as int) =~= sv);
    reqs
}

} // verus!
