//! The tag set of the automatic tagger: labels with a display name, a
//! group and an English prompt for CLIP.
use vstd::prelude::*;

use crate::error::AppError;
use crate::text::{chars_eq, chars_of, string_of};

verus! {

pub struct LabelDef {
    pub key: String,
    pub name: String,
    pub group: String,
    /// The English prompt fed to CLIP.
    pub prompt: String,
}

pub struct GroupDef {
    pub key: String,
    pub name: String,
}

/// The tag set.
pub struct Labels {
    pub defs: Vec<LabelDef>,
    pub groups: Vec<GroupDef>,
}

/// The display name of a group key: that of the last group with the key.
pub open spec fn group_display(groups: Seq<GroupDef>, key: Seq<char>) -> Option<Seq<char>>
    decreases groups.len(),
{
    if groups.len() == 0 {
        None
    } else if groups.last().key@ == key {
        Some(groups.last().name@)
    } else {
        group_display(groups.drop_last(), key)
    }
}

/// The last label with a key.
pub open spec fn label_with_key(defs: Seq<LabelDef>, key: Seq<char>) -> Option<LabelDef>
    decreases defs.len(),
{
    if defs.len() == 0 {
        None
    } else if defs.last().key@ == key {
        Some(defs.last())
    } else {
        label_with_key(defs.drop_last(), key)
    }
}

/// The group name shown for a label key: the display name of the label's
/// group (its key when the group is unknown); `其他` for an unknown label.
pub open spec fn group_name_of(labels: Labels, label_key: Seq<char>) -> Seq<char> {
    match label_with_key(labels.defs@, label_key) {
        Some(def) => match group_display(labels.groups@, def.group@) {
            Some(name) => name,
            None => def.group@,
        },
        None => "其他"@,
    }
}

impl Labels {
    /// A tag set from its groups and labels; an empty label list is refused.
    pub fn new(groups: Vec<GroupDef>, defs: Vec<LabelDef>) -> (r: Result<Labels, AppError>)
        ensures
            match r {
                Ok(l) => defs@.len() > 0 && l.defs == defs && l.groups == groups,
                Err(e) => defs@.len() == 0 && e is Internal && e->Internal_0@ == "标签集是空的"@,
            },
    {
        if defs.len() == 0 {
            return Err(AppError::Internal(string_of(&chars_of("标签集是空的"))));
        }
        Ok(Labels { defs, groups })
    }

    pub fn len(&self) -> (n: usize)
        ensures
            n == self.defs@.len(),
    {
        self.defs.len()
    }

    /// The name of the group a label belongs to.
    pub fn group_name(&self, label_key: &str) -> (name: String)
        ensures
            name@ == group_name_of(*self, label_key@),
    {
        let key = chars_of(label_key);
        let mut i = self.defs.len();
        assert(self.defs@.take(i as int) =~= self.defs@);
        while i > 0
            invariant
                i <= self.defs@.len(),
                key@ == label_key@,
                label_with_key(self.defs@, label_key@) == label_with_key(
                    self.defs@.take(i as int),
                    label_key@,
                ),
            decreases i,
        {
            assert(self.defs@.take(i as int).drop_last() =~= self.defs@.take(i - 1));
            assert(self.defs@.take(i as int).last() == self.defs@[i - 1]);
            let def = &self.defs[i - 1];
            if chars_eq(&chars_of(def.key.as_str()), &key) {
                let group = chars_of(def.group.as_str());
                assert(label_with_key(self.defs@, label_key@) == Some(*def));
                let mut j = self.groups.len();
                assert(self.groups@.take(j as int) =~= self.groups@);
                while j > 0
                    invariant
                        j <= self.groups@.len(),
                        group@ == def.group@,
                        label_with_key(self.defs@, label_key@) == Some(*def),
                        group_display(self.groups@, def.group@) == group_display(
                            self.groups@.take(j as int),
                            def.group@,
                        ),
                    decreases j,
                {
                    assert(self.groups@.take(j as int).drop_last() =~= self.groups@.take(j - 1));
                    assert(self.groups@.take(j as int).last() == self.groups@[j - 1]);
                    if chars_eq(&chars_of(self.groups[j - 1].key.as_str()), &group) {
                        assert(group_display(self.groups@, def.group@) == Some(
                            self.groups@[j - 1].name@,
                        ));
                        return self.groups[j - 1].name.clone();
                    }
                    j = j - 1;
                }
                assert(self.groups@.take(0) =~= Seq::<GroupDef>::empty());
                return def.group.clone();
            }
            i = i - 1;
        }
        assert(self.defs@.take(0) =~= Seq::<LabelDef>::empty());
        string_of(&chars_of("其他"))
    }
}

// ------------------------------------------------------------------ picking tags

/// At most this many tags of one group are kept, so that a picture does
/// not get only scenery tags.
pub const PER_GROUP_MAX: usize = 2;

/// At most this many candidates are gathered before the score thresholds.
pub const CANDIDATE_POOL: usize = 24;

/// How many of `kept` (indices into `groups`) belong to group `g`.
pub open spec fn kept_in_group(kept: Seq<usize>, groups: Seq<Seq<char>>, g: Seq<char>) -> int
    decreases kept.len(),
{
    if kept.len() == 0 {
        0
    } else {
        kept_in_group(kept.drop_last(), groups, g) + if groups[kept.last() as int] == g {
            1int
        } else {
            0int
        }
    }
}

/// The candidates among hits in descending score order, given each hit's
/// group: a hit is taken unless its group already has `PER_GROUP_MAX`
/// taken, until `CANDIDATE_POOL` are taken.
pub open spec fn candidates(groups: Seq<Seq<char>>) -> Seq<usize>
    decreases groups.len(),
{
    if groups.len() == 0 {
        Seq::<usize>::empty()
    } else {
        let prev = candidates(groups.drop_last());
        if prev.len() >= CANDIDATE_POOL || kept_in_group(prev, groups, groups.last()) >= PER_GROUP_MAX {
            prev
        } else {
            prev.push((groups.len() - 1) as usize)
        }
    }
}

proof fn lemma_kept_in_group_prefix(kept: Seq<usize>, groups: Seq<Seq<char>>, more: Seq<char>, g: Seq<char>)
    requires
        forall|i: int| 0 <= i < kept.len() ==> #[trigger] kept[i] < groups.len(),
    ensures
        kept_in_group(kept, groups.push(more), g) == kept_in_group(kept, groups, g),
    decreases kept.len(),
{
    if kept.len() > 0 {
        let d = kept.drop_last();
        assert forall|i: int| 0 <= i < d.len() implies #[trigger] d[i] < groups.len() by {
            assert(d[i] == kept[i]);
        }
        lemma_kept_in_group_prefix(d, groups, more, g);
        assert(kept.last() == kept[kept.len() - 1]);
        assert(groups.push(more)[kept.last() as int] == groups[kept.last() as int]);
    }
}

proof fn lemma_candidates_below(groups: Seq<Seq<char>>)
    ensures
        forall|i: int| 0 <= i < candidates(groups).len() ==> #[trigger] candidates(groups)[i] < groups.len(),
        candidates(groups).len() <= CANDIDATE_POOL,
    decreases groups.len(),
{
    if groups.len() > 0 {
        lemma_candidates_below(groups.drop_last());
        let prev = candidates(groups.drop_last());
        let all = candidates(groups);
        assert forall|i: int| 0 <= i < all.len() implies #[trigger] all[i] < groups.len() by {
            if i < prev.len() {
                assert(all[i] == prev[i]);
            }
        }
    }
}

/// Picks the tag candidates: `groups` holds the group of each hit, hits in
/// descending score order; the result lists the indices taken, in order.
pub fn pick_candidates(groups: &[String]) -> (picked: Vec<usize>)
    ensures
        picked@ == candidates(crate::text::string_views(groups@)),
        picked@.len() <= CANDIDATE_POOL,
{
    let ghost all = crate::text::string_views(groups@);
    let mut picked: Vec<usize> = Vec::new();
    let mut k: usize = 0;
    assert(all.take(0) =~= Seq::<Seq<char>>::empty());
    while k < groups.len()
        invariant
            all == crate::text::string_views(groups@),
            k <= groups@.len(),
            picked@ == candidates(all.take(k as int)),
        decreases groups@.len() - k,
    {
        proof {
            lemma_candidates_below(all.take(k as int));
        }
        if picked.len() >= CANDIDATE_POOL {
            proof {
                lemma_candidates_full(all, k as int);
                lemma_candidates_below(all);
            }
            return picked;
        }
        let g = chars_of(groups[k].as_str());
        let mut used: usize = 0;
        let mut j: usize = 0;
        let ghost pre = all.take(k as int);
        let ghost post = all.take(k + 1);
        assert(post.drop_last() =~= pre);
        assert(post.last() == all[k as int]);
        assert(all[k as int] == g@);
        assert(post =~= pre.push(g@));
        proof {
            lemma_kept_in_group_prefix(picked@, pre, g@, g@);
        }
        assert(picked@.take(0) =~= Seq::<usize>::empty());
        while j < picked.len()
            invariant
                all == crate::text::string_views(groups@),
                k < groups@.len(),
                j <= picked@.len(),
                picked@.len() < CANDIDATE_POOL,
                forall|i: int| 0 <= i < picked@.len() ==> #[trigger] picked@[i] < k,
                used == kept_in_group(picked@.take(j as int), all, g@),
                used <= j,
                picked@ == candidates(pre),
                pre == all.take(k as int),
                post == pre.push(g@),
                kept_in_group(picked@, post, g@) == kept_in_group(picked@, pre, g@),
            decreases picked@.len() - j,
        {
            assert(picked@.take(j + 1).drop_last() =~= picked@.take(j as int));
            assert(picked@.take(j + 1).last() == picked@[j as int]);
            let other = picked[j];
            assert(all[other as int] == groups@[other as int]@);
            if chars_eq(&chars_of(groups[other].as_str()), &g) {
                used = used + 1;
            }
            j = j + 1;
        }
        assert(picked@.take(j as int) =~= picked@);
        proof {
            lemma_kept_in_group_same(picked@, pre, all, g@, k as int);
        }
        if used < PER_GROUP_MAX {
            picked.push(k);
        }
        k = k + 1;
    }
    assert(all.take(groups@.len() as int) =~= all);
    proof {
        lemma_candidates_below(all);
    }
    picked
}

proof fn lemma_kept_in_group_same(kept: Seq<usize>, pre: Seq<Seq<char>>, all: Seq<Seq<char>>, g: Seq<char>, k: int)
    requires
        0 <= k <= all.len(),
        pre == all.take(k),
        forall|i: int| 0 <= i < kept.len() ==> #[trigger] kept[i] < k,
    ensures
        kept_in_group(kept, all, g) == kept_in_group(kept, pre, g),
    decreases kept.len(),
{
    if kept.len() > 0 {
        let d = kept.drop_last();
        assert forall|i: int| 0 <= i < d.len() implies #[trigger] d[i] < k by {
            assert(d[i] == kept[i]);
        }
        lemma_kept_in_group_same(d, pre, all, g, k);
        assert(kept.last() == kept[kept.len() - 1]);
    }
}

proof fn lemma_candidates_full(all: Seq<Seq<char>>, k: int)
    requires
        0 <= k <= all.len(),
        candidates(all.take(k)).len() >= CANDIDATE_POOL,
    ensures
        candidates(all) == candidates(all.take(k)),
    decreases all.len() - k,
{
    if k < all.len() {
        let next = all.take(k + 1);
        assert(next.drop_last() =~= all.take(k));
        lemma_candidates_full(all, k + 1);
    } else {
        assert(all.take(k) =~= all);
    }
}

/// A picture gets at most `PER_GROUP_MAX` candidates of any group, and at
/// most `CANDIDATE_POOL` in all.
pub proof fn candidates_are_spread(groups: Seq<Seq<char>>, g: Seq<char>)
    requires
        groups.len() <= usize::MAX,
    ensures
        candidates(groups).len() <= CANDIDATE_POOL,
        kept_in_group(candidates(groups), groups, g) <= PER_GROUP_MAX,
    decreases groups.len(),
{
    lemma_candidates_below(groups);
    if groups.len() > 0 {
        let d = groups.drop_last();
        candidates_are_spread(d, g);
        candidates_are_spread(d, groups.last());
        lemma_candidates_below(d);
        let prev = candidates(d);
        assert(groups =~= d.push(groups.last()));
        lemma_kept_in_group_prefix(prev, d, groups.last(), g);
        lemma_kept_in_group_prefix(prev, d, groups.last(), groups.last());
        let all = candidates(groups);
        if all.len() > prev.len() {
            assert(all.drop_last() =~= prev);
            assert(all.last() == (groups.len() - 1) as usize);
            assert(groups[all.last() as int] == groups.last());
        }
    }
}

} // verus!
