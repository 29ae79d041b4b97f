//! Organizing Skills with tags and groups: the snapshot the organizer shows,
//! and the rules that a change, a group name or a custom order must meet.
use vstd::prelude::*;

use crate::text::{
    concat2, insert_sorted, contains_text, str_eq, strictly_sorted, trim, trim_string, views,
};
use crate::WorkspaceError;

verus! {

/// The groups and the tagged or grouped instances.
#[derive(Debug, Clone, PartialEq, Eq)]
pub struct SkillOrganizationSnapshot {
    pub groups: Vec<OrganizationSkillGroup>,
    pub instances: Vec<SkillInstanceOrganization>,
}

/// A group with its members in their custom order.
#[derive(Debug, Clone, PartialEq, Eq)]
pub struct OrganizationSkillGroup {
    pub id: i64,
    pub name: String,
    pub instance_ids: Vec<String>,
}

/// The tags and groups of one instance.
#[derive(Debug, Clone, PartialEq, Eq)]
pub struct SkillInstanceOrganization {
    pub instance_id: String,
    pub tags: Vec<String>,
    pub group_ids: Vec<i64>,
}

/// Tags and groups to add to and remove from a set of instances.
#[derive(Debug, Clone, Default, PartialEq, Eq)]
pub struct SkillOrganizationChange {
    pub instance_ids: Vec<String>,
    pub add_tags: Vec<String>,
    pub remove_tags: Vec<String>,
    pub add_group_ids: Vec<i64>,
    pub remove_group_ids: Vec<i64>,
}

/// The texts with later repeats dropped, in order of first appearance.
pub open spec fn first_appearances(s: Seq<Seq<char>>) -> Seq<Seq<char>>
    decreases s.len(),
{
    if s.len() == 0 {
        seq![]
    } else if s.drop_last().contains(s.last()) {
        first_appearances(s.drop_last())
    } else {
        first_appearances(s.drop_last()).push(s.last())
    }
}

/// The message of an empty selection.
pub open spec fn empty_selection_message() -> Seq<char> {
    "至少选择一个 Skill 实例。"@
}

/// Dropping repeated instance ids loses no selected instance.
pub proof fn unique_ids_keep_every_selected_instance(s: Seq<Seq<char>>)
    ensures
        first_appearances(s).to_set() == s.to_set(),
    decreases s.len(),
{
    if s.len() > 0 {
        unique_ids_keep_every_selected_instance(s.drop_last());
        assert(s == s.drop_last().push(s.last()));
        if s.drop_last().contains(s.last()) {
            s.drop_last().lemma_push_to_set_commute(s.last());
            assert(s.to_set() =~= s.drop_last().to_set().insert(s.last()));
            assert(s.drop_last().to_set().contains(s.last()));
            assert(s.to_set() =~= s.drop_last().to_set());
        } else {
            s.drop_last().lemma_push_to_set_commute(s.last());
            first_appearances(s.drop_last()).lemma_push_to_set_commute(s.last());
            assert(s.to_set() =~= s.drop_last().to_set().insert(s.last()));
        }
    }
}

/// The selected instance ids without repeats, in order of first appearance;
/// an empty selection is refused.
pub fn unique_instance_ids(instance_ids: &Vec<String>) -> (r: Result<Vec<String>, WorkspaceError>)
    ensures
        instance_ids@.len() == 0 ==> (r matches Err(WorkspaceError::InvalidOrganization(m)) && m@
            == empty_selection_message()),
        instance_ids@.len() > 0 ==> (r matches Ok(v) && views(v@) == first_appearances(
            views(instance_ids@),
        )),
{
    if instance_ids.len() == 0 {
        let m = "至少选择一个 Skill 实例。".to_owned();
        proof {
            reveal_strlit("至少选择一个 Skill 实例。");
        }
        return Err(WorkspaceError::InvalidOrganization(m));
    }
    let mut unique: Vec<String> = Vec::new();
    let mut seen: Vec<String> = Vec::new();
    let ghost ids = views(instance_ids@);
    let mut i: usize = 0;
    proof {
        assert(views(seen@).to_set() =~= Set::<Seq<char>>::empty());
        assert(ids.take(0).to_set() =~= Set::<Seq<char>>::empty());
    }
    while i < instance_ids.len()
        invariant
            i <= ids.len(),
            ids == views(instance_ids@),
            strictly_sorted(views(seen@)),
            views(seen@).to_set() == ids.take(i as int).to_set(),
            views(unique@) == first_appearances(ids.take(i as int)),
        decreases ids.len() - i,
    {
        let id = &instance_ids[i];
        proof {
            assert(ids.take(i + 1).drop_last() == ids.take(i as int));
            assert(ids.take(i + 1).last() == id@);
            assert(ids.take(i + 1) == ids.take(i as int).push(id@));
            ids.take(i as int).lemma_push_to_set_commute(id@);
            assert(ids.take(i + 1).to_set() =~= ids.take(i as int).to_set().insert(id@));
        }
        if !contains_text(&seen, id.as_str()) {
            proof {
                assert(!ids.take(i as int).to_set().contains(id@));
                assert(!ids.take(i as int).contains(id@));
            }
            let ghost before = unique@;
            unique.push(id.clone());
            insert_sorted(&mut seen, id.clone());
            assert(views(unique@) =~= views(before).push(id@));
        } else {
            proof {
                assert(ids.take(i as int).to_set().contains(id@));
                assert(ids.take(i as int).contains(id@));
                assert(ids.take(i as int).to_set().insert(id@) =~= ids.take(i as int).to_set());
            }
        }
        i += 1;
    }
    proof {
        assert(ids.take(ids.len() as int) == ids);
    }
    Ok(unique)
}

/// Strictly increasing numbers: a sorted set.
pub open spec fn increasing(v: Seq<i64>) -> bool {
    forall|i: int, j: int| 0 <= i < j < v.len() ==> #[trigger] v[i] < #[trigger] v[j]
}

fn insert_id(v: &mut Vec<i64>, x: i64)
    requires
        increasing(old(v)@),
    ensures
        increasing(final(v)@),
        final(v)@.to_set() == old(v)@.to_set().insert(x),
{
    let mut p: usize = 0;
    while p < v.len() && v[p] < x
        invariant
            p <= v@.len(),
            *v == *old(v),
            increasing(v@),
            forall|k: int| 0 <= k < p ==> v@[k] < x,
        decreases v@.len() - p,
    {
        p += 1;
    }
    let ghost old_v = v@;
    if p < v.len() && v[p] == x {
        assert(old_v.to_set().insert(x) =~= old_v.to_set()) by {
            assert(old_v[p as int] == x);
        }
        return;
    }
    v.insert(p, x);
    proof {
        let nv = v@;
        assert(nv =~= old_v.insert(p as int, x));
        assert forall|i: int, j: int| 0 <= i < j < nv.len() implies #[trigger] nv[i] < #[trigger] nv[j] by {
            if j < p {
                assert(old_v[i] < old_v[j]);
            } else if j == p {
                assert(old_v[i] < x);
            } else if i < p {
                assert(old_v[i] < x);
                assert(x < old_v[j - 1] || x == old_v[j - 1] || x > old_v[j - 1]);
                if p < j - 1 {
                    assert(old_v[p as int] < old_v[j - 1]);
                }
            } else if i == p {
                if p < j - 1 {
                    assert(old_v[p as int] < old_v[j - 1]);
                }
            } else {
                assert(old_v[i - 1] < old_v[j - 1]);
            }
        }
        assert forall|q: i64| nv.to_set().contains(q) <==> old_v.to_set().insert(x).contains(q) by {
            if nv.to_set().contains(q) {
                let i = choose|i: int| 0 <= i < nv.len() && nv[i] == q;
                if i < p {
                    assert(old_v[i] == q);
                } else if i > p {
                    assert(old_v[i - 1] == q);
                }
            }
            if old_v.to_set().insert(x).contains(q) {
                if q == x {
                    assert(nv[p as int] == q);
                } else {
                    let i = choose|i: int| 0 <= i < old_v.len() && old_v[i] == q;
                    if i < p {
                        assert(nv[i] == q);
                    } else {
                        assert(nv[i + 1] == q);
                    }
                }
            }
        }
        assert(nv.to_set() =~= old_v.to_set().insert(x));
    }
}

/// The group ids without repeats, in increasing order (`BTreeSet`).
pub fn unique_group_ids(group_ids: &Vec<i64>) -> (r: Vec<i64>)
    ensures
        increasing(r@),
        r@.to_set() == group_ids@.to_set(),
{
    let mut out: Vec<i64> = Vec::new();
    let mut i: usize = 0;
    proof {
        assert(out@.to_set() =~= Set::<i64>::empty());
        assert(group_ids@.take(0).to_set() =~= Set::<i64>::empty());
    }
    while i < group_ids.len()
        invariant
            i <= group_ids@.len(),
            increasing(out@),
            out@.to_set() == group_ids@.take(i as int).to_set(),
        decreases group_ids@.len() - i,
    {
        proof {
            assert(group_ids@.take(i + 1) == group_ids@.take(i as int).push(group_ids@[i as int]));
            group_ids@.take(i as int).lemma_push_to_set_commute(group_ids@[i as int]);
            assert(group_ids@.take(i + 1).to_set() =~= group_ids@.take(i as int).to_set().insert(
                group_ids@[i as int],
            ));
        }
        insert_id(&mut out, group_ids[i]);
        i += 1;
    }
    proof {
        assert(group_ids@.take(group_ids@.len() as int) == group_ids@);
    }
    out
}

/// The message of a term that is empty, spans lines or is too long.
pub open spec fn term_message(label: Seq<char>) -> Seq<char> {
    label + "不能为空、不能换行，且最多 80 个字符。"@
}

/// A tag or group name is acceptable: once trimmed it is not empty, holds
/// no line break and has at most 80 characters.
pub open spec fn term_ok(value: Seq<char>) -> bool {
    let t = trim(value);
    t.len() > 0 && !t.contains('\n') && !t.contains('\r') && t.len() <= 80
}

/// An accepted tag or group name, once normalized, is still accepted and
/// normalizes to itself: storing a normalized name and submitting it again
/// changes nothing.
pub proof fn normalized_term_is_stable(value: Seq<char>)
    ensures
        trim(trim(value)) == trim(value),
        term_ok(value) ==> term_ok(trim(value)),
{
    crate::text::lemma_trim_idempotent(value);
}

fn has_line_break(v: &Vec<char>) -> (r: bool)
    ensures
        r == (v@.contains('\n') || v@.contains('\r')),
{
    let mut i: usize = 0;
    while i < v.len()
        invariant
            i <= v@.len(),
            forall|k: int| 0 <= k < i ==> v@[k] != '\n' && v@[k] != '\r',
        decreases v@.len() - i,
    {
        if v[i] == '\n' || v[i] == '\r' {
            assert(v@[i as int] == '\n' || v@[i as int] == '\r');
            return true;
        }
        i += 1;
    }
    false
}

/// A tag or group name, trimmed; refused when it is empty, spans lines or
/// has more than 80 characters. `label` names what it is in the message.
pub fn normalized_term(value: &str, label: &str) -> (r: Result<String, WorkspaceError>)
    ensures
        term_ok(value@) ==> (r matches Ok(t) && t@ == trim(value@)),
        !term_ok(value@) ==> (r matches Err(WorkspaceError::InvalidOrganization(m)) && m@ == term_message(
            label@,
        )),
{
    let t = trim_string(value);
    let v = crate::text::chars_of(t.as_str());
    if v.len() == 0 || has_line_break(&v) || v.len() > 80 {
        return Err(WorkspaceError::InvalidOrganization(concat2(label, "不能为空、不能换行，且最多 80 个字符。")));
    }
    Ok(t)
}

/// The trimmed terms, as a sorted set (`BTreeSet`); refused at the first
/// term that is not acceptable.
pub fn normalized_terms(values: &Vec<String>, label: &str) -> (r: Result<Vec<String>, WorkspaceError>)
    ensures
        (forall|k: int| 0 <= k < values@.len() ==> term_ok(#[trigger] values@[k]@)) ==> (r matches Ok(v)
            && strictly_sorted(views(v@)) && views(v@).to_set() == views(values@).map_values(
            |x: Seq<char>| trim(x),
        ).to_set()),
        !(forall|k: int| 0 <= k < values@.len() ==> term_ok(#[trigger] values@[k]@)) ==> (r matches Err(
            WorkspaceError::InvalidOrganization(m),
        ) && m@ == term_message(label@)),
{
    let ghost trimmed = views(values@).map_values(|x: Seq<char>| trim(x));
    let mut out: Vec<String> = Vec::new();
    let mut i: usize = 0;
    proof {
        assert(views(out@).to_set() =~= Set::<Seq<char>>::empty());
        assert(trimmed.take(0).to_set() =~= Set::<Seq<char>>::empty());
    }
    while i < values.len()
        invariant
            i <= values@.len(),
            trimmed == views(values@).map_values(|x: Seq<char>| trim(x)),
            forall|k: int| 0 <= k < i ==> term_ok(#[trigger] values@[k]@),
            strictly_sorted(views(out@)),
            views(out@).to_set() == trimmed.take(i as int).to_set(),
        decreases values@.len() - i,
    {
        match normalized_term(values[i].as_str(), label) {
            Err(e) => {
                return Err(e);
            },
            Ok(t) => {
                proof {
                    assert(trimmed[i as int] == trim(values@[i as int]@));
                    assert(trimmed.take(i + 1) == trimmed.take(i as int).push(trimmed[i as int]));
                    trimmed.take(i as int).lemma_push_to_set_commute(trimmed[i as int]);
                    assert(trimmed.take(i + 1).to_set() =~= trimmed.take(i as int).to_set().insert(
                        trimmed[i as int],
                    ));
                }
                insert_sorted(&mut out, t);
            },
        }
        i += 1;
    }
    proof {
        assert(trimmed.take(values@.len() as int) == trimmed);
    }
    Ok(out)
}

/// The message of something both added and removed.
pub open spec fn overlap_message(label: Seq<char>) -> Seq<char> {
    "同一个"@ + label + "不能同时添加和移除。"@
}

/// Refuses terms that are both added and removed.
pub fn validate_disjoint(add: &Vec<String>, remove: &Vec<String>, label: &str) -> (r: Result<(), WorkspaceError>)
    ensures
        r is Ok <==> forall|i: int| 0 <= i < add@.len() ==> !views(remove@).contains(#[trigger] add@[i]@),
        r matches Err(e) ==> (e matches WorkspaceError::InvalidOrganization(m) && m@ == overlap_message(
            label@,
        )),
{
    let mut i: usize = 0;
    while i < add.len()
        invariant
            i <= add@.len(),
            forall|k: int| 0 <= k < i ==> !views(remove@).contains(#[trigger] add@[k]@),
        decreases add@.len() - i,
    {
        let mut j: usize = 0;
        while j < remove.len()
            invariant
                i < add@.len(),
                j <= remove@.len(),
                forall|k: int| 0 <= k < j ==> views(remove@)[k] != add@[i as int]@,
            decreases remove@.len() - j,
        {
            if str_eq(add[i].as_str(), remove[j].as_str()) {
                assert(views(remove@)[j as int] == add@[i as int]@);
                return Err(WorkspaceError::InvalidOrganization(crate::text::concat3("同一个", label, "不能同时添加和移除。")));
            }
            j += 1;
        }
        i += 1;
    }
    Ok(())
}

/// Refuses group ids that are both added and removed.
pub fn validate_disjoint_ids(add: &Vec<i64>, remove: &Vec<i64>, label: &str) -> (r: Result<(), WorkspaceError>)
    ensures
        r is Ok <==> forall|i: int| 0 <= i < add@.len() ==> !remove@.contains(#[trigger] add@[i]),
        r matches Err(e) ==> (e matches WorkspaceError::InvalidOrganization(m) && m@ == overlap_message(
            label@,
        )),
{
    let mut i: usize = 0;
    while i < add.len()
        invariant
            i <= add@.len(),
            forall|k: int| 0 <= k < i ==> !remove@.contains(#[trigger] add@[k]),
        decreases add@.len() - i,
    {
        let mut j: usize = 0;
        while j < remove.len()
            invariant
                i < add@.len(),
                j <= remove@.len(),
                forall|k: int| 0 <= k < j ==> remove@[k] != add@[i as int],
            decreases remove@.len() - j,
        {
            if add[i] == remove[j] {
                assert(remove@[j as int] == add@[i as int]);
                return Err(WorkspaceError::InvalidOrganization(crate::text::concat3("同一个", label, "不能同时添加和移除。")));
            }
            j += 1;
        }
        i += 1;
    }
    Ok(())
}

/// A change as it is applied: distinct instances, and sorted sets of tags
/// and group ids to add and to remove.
#[derive(Debug, Clone, PartialEq, Eq)]
pub struct PreparedOrganizationChange {
    pub instance_ids: Vec<String>,
    pub add_tags: Vec<String>,
    pub remove_tags: Vec<String>,
    pub add_group_ids: Vec<i64>,
    pub remove_group_ids: Vec<i64>,
}

/// Whether every term of a list is acceptable.
pub open spec fn terms_ok(values: Seq<String>) -> bool {
    forall|k: int| 0 <= k < values.len() ==> term_ok(#[trigger] values[k]@)
}

/// The trimmed terms of a list, as a set.
pub open spec fn trimmed_terms(values: Seq<String>) -> Set<Seq<char>> {
    views(values).map_values(|x: Seq<char>| trim(x)).to_set()
}

/// Why a change is refused, checked in this order: an empty selection, a
/// tag that is not acceptable, a tag both added and removed, a group both
/// added and removed; `None` when it is accepted.
pub open spec fn organization_refusal(c: SkillOrganizationChange) -> Option<Seq<char>> {
    if c.instance_ids@.len() == 0 {
        Some(empty_selection_message())
    } else if !terms_ok(c.add_tags@) || !terms_ok(c.remove_tags@) {
        Some(term_message("Skill 标签"@))
    } else if !trimmed_terms(c.add_tags@).disjoint(trimmed_terms(c.remove_tags@)) {
        Some(overlap_message("Skill 标签"@))
    } else if !c.add_group_ids@.to_set().disjoint(c.remove_group_ids@.to_set()) {
        Some(overlap_message("Skill 组"@))
    } else {
        None
    }
}

/// Prepares a change before it touches the index: the instances without
/// repeats, the tags normalized, the group ids without repeats; refuses an
/// empty selection, a bad tag, and a tag or group both added and removed.
pub fn prepare_organization_change(change: &SkillOrganizationChange) -> (r: Result<
    PreparedOrganizationChange,
    WorkspaceError,
>)
    ensures
        match organization_refusal(*change) {
            Some(m) => r matches Err(WorkspaceError::InvalidOrganization(e)) && e@ == m,
            None => r matches Ok(p) && {
                &&& views(p.instance_ids@) == first_appearances(views(change.instance_ids@))
                &&& strictly_sorted(views(p.add_tags@))
                &&& strictly_sorted(views(p.remove_tags@))
                &&& views(p.add_tags@).to_set() == trimmed_terms(change.add_tags@)
                &&& views(p.remove_tags@).to_set() == trimmed_terms(change.remove_tags@)
                &&& increasing(p.add_group_ids@)
                &&& increasing(p.remove_group_ids@)
                &&& p.add_group_ids@.to_set() == change.add_group_ids@.to_set()
                &&& p.remove_group_ids@.to_set() == change.remove_group_ids@.to_set()
            },
        },
{
    let instance_ids = match unique_instance_ids(&change.instance_ids) {
        Ok(v) => v,
        Err(e) => {
            return Err(e);
        },
    };
    let add_tags = match normalized_terms(&change.add_tags, "Skill 标签") {
        Ok(v) => v,
        Err(e) => {
            return Err(e);
        },
    };
    let remove_tags = match normalized_terms(&change.remove_tags, "Skill 标签") {
        Ok(v) => v,
        Err(e) => {
            return Err(e);
        },
    };
    let tags_apart = validate_disjoint(&add_tags, &remove_tags, "Skill 标签");
    proof {
        let sa = views(add_tags@).to_set();
        let sr = views(remove_tags@).to_set();
        if tags_apart is Ok {
            assert forall|x: Seq<char>| sa.contains(x) implies !sr.contains(x) by {
                let i = choose|i: int| 0 <= i < views(add_tags@).len() && views(add_tags@)[i] == x;
                assert(add_tags@[i]@ == x);
            }
        } else {
            let i = choose|i: int| 0 <= i < add_tags@.len() && views(remove_tags@).contains(#[trigger] add_tags@[i]@);
            assert(views(add_tags@)[i] == add_tags@[i]@);
            assert(sa.contains(add_tags@[i]@));
            assert(sr.contains(add_tags@[i]@));
        }
    }
    if let Err(e) = tags_apart {
        return Err(e);
    }
    let add_group_ids = unique_group_ids(&change.add_group_ids);
    let remove_group_ids = unique_group_ids(&change.remove_group_ids);
    let groups_apart = validate_disjoint_ids(&add_group_ids, &remove_group_ids, "Skill 组");
    proof {
        let sa = add_group_ids@.to_set();
        let sr = remove_group_ids@.to_set();
        if groups_apart is Ok {
            assert forall|x: i64| sa.contains(x) implies !sr.contains(x) by {
                let i = choose|i: int| 0 <= i < add_group_ids@.len() && add_group_ids@[i] == x;
                assert(!remove_group_ids@.contains(add_group_ids@[i]));
            }
        } else {
            let i = choose|i: int| 0 <= i < add_group_ids@.len() && remove_group_ids@.contains(#[trigger] add_group_ids@[i]);
            assert(sa.contains(add_group_ids@[i]));
            assert(sr.contains(add_group_ids@[i]));
        }
    }
    if let Err(e) = groups_apart {
        return Err(e);
    }
    Ok(PreparedOrganizationChange { instance_ids, add_tags, remove_tags, add_group_ids, remove_group_ids })
}

/// The tags of an instance after a change: its tags without the removed
/// ones, with the added ones, as a sorted set.
pub fn tags_after(current: &Vec<String>, add: &Vec<String>, remove: &Vec<String>) -> (r: Vec<String>)
    ensures
        strictly_sorted(views(r@)),
        views(r@).to_set() == views(current@).to_set().difference(views(remove@).to_set()).union(
            views(add@).to_set(),
        ),
{
    let ghost cur = views(current@);
    let ghost rem = views(remove@).to_set();
    let mut out: Vec<String> = Vec::new();
    let mut i: usize = 0;
    proof {
        assert(views(out@).to_set() =~= Set::<Seq<char>>::empty());
        assert(cur.take(0).to_set().difference(rem) =~= Set::<Seq<char>>::empty());
    }
    while i < current.len()
        invariant
            i <= current@.len(),
            cur == views(current@),
            rem == views(remove@).to_set(),
            strictly_sorted(views(out@)),
            views(out@).to_set() == cur.take(i as int).to_set().difference(rem),
        decreases current@.len() - i,
    {
        proof {
            assert(cur.take(i + 1) == cur.take(i as int).push(cur[i as int]));
            cur.take(i as int).lemma_push_to_set_commute(cur[i as int]);
        }
        if !contains_text(remove, current[i].as_str()) {
            insert_sorted(&mut out, current[i].clone());
            proof {
                assert(!rem.contains(cur[i as int]));
                assert(views(out@).to_set() =~= cur.take(i + 1).to_set().difference(rem));
            }
        } else {
            proof {
                assert(rem.contains(cur[i as int]));
                assert(views(out@).to_set() =~= cur.take(i + 1).to_set().difference(rem));
            }
        }
        i += 1;
    }
    proof {
        assert(cur.take(current@.len() as int) == cur);
        assert(views(add@).take(0).to_set() =~= Set::<Seq<char>>::empty());
    }
    let ghost base = views(out@).to_set();
    let ghost ad = views(add@);
    let mut j: usize = 0;
    while j < add.len()
        invariant
            j <= add@.len(),
            ad == views(add@),
            strictly_sorted(views(out@)),
            views(out@).to_set() == base.union(ad.take(j as int).to_set()),
        decreases add@.len() - j,
    {
        proof {
            assert(ad.take(j + 1) == ad.take(j as int).push(ad[j as int]));
            ad.take(j as int).lemma_push_to_set_commute(ad[j as int]);
        }
        insert_sorted(&mut out, add[j].clone());
        proof {
            assert(views(out@).to_set() =~= base.union(ad.take(j + 1).to_set()));
        }
        j += 1;
    }
    proof {
        assert(ad.take(add@.len() as int) == ad);
    }
    out
}

/// The memberships that adding the instances `ids[k..]` to a group makes,
/// as `(instance id, position)`: each instance not yet a member joins at
/// the next free position, from `position` on, in order.
pub open spec fn group_additions(
    ids: Seq<Seq<char>>,
    members: Set<Seq<char>>,
    position: int,
    k: int,
) -> Seq<(Seq<char>, int)>
    decreases ids.len() - k,
{
    if k < 0 || k >= ids.len() {
        seq![]
    } else if members.contains(ids[k]) {
        group_additions(ids, members, position, k + 1)
    } else {
        seq![(ids[k], position)] + group_additions(ids, members, position + 1, k + 1)
    }
}

proof fn lemma_group_additions_len(ids: Seq<Seq<char>>, members: Set<Seq<char>>, position: int, k: int)
    requires
        0 <= k <= ids.len(),
    ensures
        group_additions(ids, members, position, k).len() <= ids.len() - k,
    decreases ids.len() - k,
{
    if k < ids.len() {
        if members.contains(ids[k]) {
            lemma_group_additions_len(ids, members, position, k + 1);
        } else {
            lemma_group_additions_len(ids, members, position + 1, k + 1);
        }
    }
}

/// The memberships that adding distinct instances to a group makes: the
/// ones not yet members, in order, at consecutive positions from the
/// group's next position.
pub fn new_memberships(next_position: i64, instance_ids: &Vec<String>, members: &Vec<String>) -> (r: Vec<
    (String, i64),
>)
    requires
        next_position + instance_ids@.len() <= i64::MAX,
    ensures
        r@.map_values(|m: (String, i64)| (m.0@, m.1 as int)) == group_additions(
            views(instance_ids@),
            views(members@).to_set(),
            next_position as int,
            0,
        ),
{
    let ghost ids = views(instance_ids@);
    let ghost ms = views(members@).to_set();
    let mut r: Vec<(String, i64)> = Vec::new();
    let mut position: i64 = next_position;
    let mut k: usize = 0;
    proof {
        lemma_group_additions_len(ids, ms, next_position as int, 0);
    }
    while k < instance_ids.len()
        invariant
            k <= instance_ids@.len(),
            ids == views(instance_ids@),
            ms == views(members@).to_set(),
            next_position + instance_ids@.len() <= i64::MAX,
            next_position <= position <= next_position + k,
            r@.map_values(|m: (String, i64)| (m.0@, m.1 as int)) + group_additions(ids, ms, position as int, k as int)
                == group_additions(ids, ms, next_position as int, 0),
        decreases instance_ids@.len() - k,
    {
        let id = &instance_ids[k];
        let ghost before = r@.map_values(|m: (String, i64)| (m.0@, m.1 as int));
        if contains_text(members, id.as_str()) {
            proof {
                assert(ms.contains(ids[k as int]));
            }
        } else {
            proof {
                assert(!views(members@).contains(ids[k as int]));
                assert(!ms.contains(ids[k as int]));
            }
            r.push((id.clone(), position));
            proof {
                assert(r@.map_values(|m: (String, i64)| (m.0@, m.1 as int)) =~= before.push((ids[k as int], position as int)));
                assert(before.push((ids[k as int], position as int)) + group_additions(ids, ms, position + 1, k + 1)
                    =~= before + (seq![(ids[k as int], position as int)] + group_additions(ids, ms, position + 1, k + 1)));
            }
            position = position + 1;
        }
        k += 1;
    }
    proof {
        assert(group_additions(ids, ms, position as int, k as int) == Seq::<(Seq<char>, int)>::empty());
        assert(r@.map_values(|m: (String, i64)| (m.0@, m.1 as int)) + Seq::<(Seq<char>, int)>::empty()
            =~= r@.map_values(|m: (String, i64)| (m.0@, m.1 as int)));
    }
    r
}

/// The message of a custom order that is not a rearrangement of the group.
pub open spec fn order_message() -> Seq<char> {
    "自定义顺序必须包含 Skill 组中的全部实例，且不能包含其他实例。"@
}

/// Checks a custom order of a group: its instances must be exactly the
/// group's current members.
pub fn check_group_order(current: &Vec<String>, ordered: &Vec<String>) -> (r: Result<(), WorkspaceError>)
    ensures
        r is Ok <==> views(current@).to_set() == views(ordered@).to_set(),
        r matches Err(e) ==> (e matches WorkspaceError::InvalidOrganization(m) && m@ == order_message()),
{
    let mut i: usize = 0;
    while i < current.len()
        invariant
            i <= current@.len(),
            forall|k: int| 0 <= k < i ==> views(ordered@).contains(#[trigger] views(current@)[k]),
        decreases current@.len() - i,
    {
        if !contains_text(ordered, current[i].as_str()) {
            proof {
                assert(views(current@).to_set().contains(views(current@)[i as int]));
                assert(!views(ordered@).to_set().contains(views(current@)[i as int]));
            }
            return Err(WorkspaceError::InvalidOrganization("自定义顺序必须包含 Skill 组中的全部实例，且不能包含其他实例。".to_owned()));
        }
        i += 1;
    }
    let mut j: usize = 0;
    while j < ordered.len()
        invariant
            j <= ordered@.len(),
            forall|k: int| 0 <= k < current@.len() ==> views(ordered@).contains(#[trigger] views(current@)[k]),
            forall|k: int| 0 <= k < j ==> views(current@).contains(#[trigger] views(ordered@)[k]),
        decreases ordered@.len() - j,
    {
        if !contains_text(current, ordered[j].as_str()) {
            proof {
                assert(views(ordered@).to_set().contains(views(ordered@)[j as int]));
                assert(!views(current@).to_set().contains(views(ordered@)[j as int]));
            }
            return Err(WorkspaceError::InvalidOrganization("自定义顺序必须包含 Skill 组中的全部实例，且不能包含其他实例。".to_owned()));
        }
        j += 1;
    }
    proof {
        assert forall|x: Seq<char>| views(current@).to_set().contains(x) <==> views(ordered@).to_set().contains(x) by {
            if views(current@).contains(x) {
                let k = choose|k: int| 0 <= k < views(current@).len() && views(current@)[k] == x;
                assert(views(ordered@).contains(views(current@)[k]));
            }
            if views(ordered@).contains(x) {
                let k = choose|k: int| 0 <= k < views(ordered@).len() && views(ordered@)[k] == x;
                assert(views(current@).contains(views(ordered@)[k]));
            }
        }
        assert(views(current@).to_set() =~= views(ordered@).to_set());
    }
    Ok(())
}

/// The outcome of renaming or deleting a group by id: nothing changed means
/// there is no such group.
pub fn group_change_outcome(changed: usize, group_id: i64) -> (r: Result<(), WorkspaceError>)
    ensures
        changed == 0 ==> r == Err::<(), WorkspaceError>(WorkspaceError::UnknownSkillGroup(group_id)),
        changed > 0 ==> r is Ok,
{
    if changed == 0 {
        return Err(WorkspaceError::UnknownSkillGroup(group_id));
    }
    Ok(())
}

} // verus!
