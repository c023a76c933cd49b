//! Grouping patterns by a key of bytes: by search key for the automaton engine,
//! by fingerprint for the fingerprint engine.

use crate::engine::common::PatternInfo;
use crate::engine::table::ids_of;
use vstd::prelude::*;
use vstd::slice::slice_to_vec;

verus! {

/// Patterns grouped by a key of bytes: the distinct keys, and for each key
/// the records of the patterns that have it.
pub struct Grouping {
    pub keys: Vec<Vec<u8>>,
    pub members: Vec<Vec<PatternInfo>>,
}

/// The bytes of each of a list of byte strings.
pub open spec fn byte_strings(list: Seq<Vec<u8>>) -> Seq<Seq<u8>> {
    Seq::new(list.len(), |i: int| list[i]@)
}

/// The identifiers in each of a list of lists of records.
pub open spec fn id_lists(lists: Seq<Vec<PatternInfo>>) -> Seq<Seq<int>> {
    Seq::new(lists.len(), |g: int| ids_of(lists[g]@))
}

/// Whether one of the groups has the identifier `i`.
pub open spec fn is_member(members: Seq<Seq<int>>, i: int) -> bool {
    exists|g: int, j: int|
        0 <= g < members.len() && 0 <= j < members[g].len() && #[trigger] members[g][j] == i
}

/// Whether `keys` and `members` group the patterns `0 .. key_of.len()` by
/// their keys: each key stands once, in the order in which the keys first
/// occur among the patterns, and has the identifiers of the patterns with
/// that key, in ascending order.
pub open spec fn is_grouping(
    key_of: Seq<Seq<u8>>,
    keys: Seq<Seq<u8>>,
    members: Seq<Seq<int>>,
) -> bool {
    &&& keys.len() == members.len()
    &&& forall|g: int| 0 <= g < members.len() ==> (#[trigger] members[g]).len() > 0
    &&& forall|g: int, j: int|
        0 <= g < members.len() && 0 <= j < members[g].len() ==> 0 <= (#[trigger] members[g][j])
            < key_of.len() && key_of[members[g][j]] == keys[g]
    &&& forall|g: int, j: int, k: int|
        0 <= g < members.len() && 0 <= j < k < members[g].len() ==> (#[trigger] members[g][j]) < (
        #[trigger] members[g][k])
    &&& forall|g: int, h: int| 0 <= g < h < keys.len() ==> #[trigger] keys[g] != #[trigger] keys[h]
    &&& forall|i: int| 0 <= i < key_of.len() ==> #[trigger] is_member(members, i)
    &&& forall|g: int, h: int|
        0 <= g < h < members.len() ==> (#[trigger] members[g])[0] < (#[trigger] members[h])[0]
}

/// The grouping of the patterns with these keys: the distinct keys and the
/// groups. There is one and only one.
pub open spec fn grouping_of(key_of: Seq<Seq<u8>>) -> (Seq<Seq<u8>>, Seq<Seq<int>>) {
    choose|g: (Seq<Seq<u8>>, Seq<Seq<int>>)| is_grouping(key_of, g.0, g.1)
}

impl Grouping {
    /// The distinct keys, in the order of the groups.
    pub open spec fn key_bytes(&self) -> Seq<Seq<u8>> {
        byte_strings(self.keys@)
    }

    /// The identifiers of the patterns of each group.
    pub open spec fn ids(&self) -> Seq<Seq<int>> {
        id_lists(self.members@)
    }

    /// The records of each group.
    pub open spec fn records(&self) -> Seq<Seq<PatternInfo>> {
        Seq::new(self.members@.len(), |g: int| self.members@[g]@)
    }

    /// Whether each record is the one that `infos` holds for its pattern.
    pub open spec fn records_from(&self, infos: Seq<PatternInfo>) -> bool {
        forall|g: int, j: int|
            0 <= g < self.members.len() && 0 <= j < self.members[g].len() ==> 0 <= (
            #[trigger] self.members[g][j]).id < infos.len() && self.members[g][j]
                == infos[self.members[g][j].id as int]
    }
}

/// Whether two byte strings are equal.
pub fn same_bytes(a: &[u8], b: &[u8]) -> (r: bool)
    ensures
        r == (a@ == b@),
{
    if a.len() != b.len() {
        return false;
    }
    let mut k: usize = 0;
    while k < a.len()
        invariant
            k <= a.len(),
            a.len() == b.len(),
            forall|j: int| 0 <= j < k ==> a@[j] == b@[j],
        decreases a.len() - k,
    {
        if a[k] != b[k] {
            return false;
        }
        k += 1;
    }
    assert(a@ =~= b@);
    true
}

/// The position of `key` among `keys`, if it is there.
pub(crate) fn find_key(keys: &Vec<Vec<u8>>, key: &Vec<u8>) -> (r: Option<usize>)
    ensures
        r matches Some(g) ==> g < keys.len() && keys[g as int]@ == key@,
        r is None ==> forall|g: int| 0 <= g < keys.len() ==> (#[trigger] keys[g])@ != key@,
{
    let mut g: usize = 0;
    while g < keys.len()
        invariant
            g <= keys.len(),
            forall|h: int| 0 <= h < g ==> (#[trigger] keys[h])@ != key@,
        decreases keys.len() - g,
    {
        if same_bytes(keys[g].as_slice(), key.as_slice()) {
            return Some(g);
        }
        g += 1;
    }
    None
}

/// Groups the patterns by their keys. `key_of[i]` is the key of pattern `i`
/// and `infos[i]` its record.
#[verifier::loop_isolation(false)]
pub fn group_patterns(key_of: &Vec<Vec<u8>>, infos: &Vec<PatternInfo>) -> (r: Grouping)
    requires
        key_of.len() == infos.len(),
        forall|i: int| 0 <= i < infos.len() ==> (#[trigger] infos[i]).id == i,
    ensures
        is_grouping(byte_strings(key_of@), r.key_bytes(), r.ids()),
        r.records_from(infos@),
{
    let ghost all = byte_strings(key_of@);
    let mut keys: Vec<Vec<u8>> = Vec::new();
    let mut members: Vec<Vec<PatternInfo>> = Vec::new();
    let mut i: usize = 0;
    while i < key_of.len()
        invariant
            i <= key_of.len(),
            is_grouping(all.take(i as int), byte_strings(keys@), id_lists(members@)),
            forall|g: int, j: int|
                0 <= g < members.len() && 0 <= j < members[g].len() ==> 0 <= (
                #[trigger] members[g][j]).id < infos.len() && members[g][j]
                    == infos[members[g][j].id as int],
        decreases key_of.len() - i,
    {
        let ghost old_keys = byte_strings(keys@);
        let ghost old_ids = id_lists(members@);
        let ghost old_members = members@;
        let key = &key_of[i];
        match find_key(&keys, key) {
            Some(g) => {
                members[g].push(infos[i]);
                proof {
                    let new_ids = id_lists(members@);
                    assert(byte_strings(keys@) == old_keys);
                    assert forall|h: int| 0 <= h < new_ids.len() && h != g implies new_ids[h]
                        == old_ids[h] by {
                        assert(members@[h] == old_members[h]);
                    }
                    assert(new_ids[g as int] =~= old_ids[g as int].push(i as int));
                    lemma_grouping_join(all, i as int, old_keys, old_ids, new_ids, g as int);
                }
            },
            None => {
                keys.push(slice_to_vec(key.as_slice()));
                let mut group: Vec<PatternInfo> = Vec::new();
                group.push(infos[i]);
                members.push(group);
                proof {
                    let new_keys = byte_strings(keys@);
                    let new_ids = id_lists(members@);
                    assert(new_keys =~= old_keys.push(all[i as int]));
                    assert(new_ids =~= old_ids.push(seq![i as int])) by {
                        assert forall|h: int| 0 <= h < old_ids.len() implies new_ids[h]
                            == old_ids[h] by {
                            assert(members@[h] == old_members[h]);
                        }
                        assert(new_ids[old_ids.len() as int] =~= seq![i as int]);
                    }
                    assert forall|h: int| 0 <= h < old_keys.len() implies old_keys[h]
                        != all[i as int] by {
                        assert(keys@[h]@ != key@);
                    }
                    lemma_grouping_open(all, i as int, old_keys, old_ids);
                }
            },
        }
        i += 1;
    }
    assert(all.take(i as int) =~= all);
    Grouping { keys, members }
}

/// Adding pattern `i` to the group `g` that has its key keeps a grouping.
proof fn lemma_grouping_join(
    all: Seq<Seq<u8>>,
    i: int,
    keys: Seq<Seq<u8>>,
    old_ids: Seq<Seq<int>>,
    new_ids: Seq<Seq<int>>,
    g: int,
)
    requires
        0 <= i < all.len(),
        is_grouping(all.take(i), keys, old_ids),
        0 <= g < keys.len(),
        keys[g] == all[i],
        new_ids.len() == old_ids.len(),
        new_ids[g] == old_ids[g].push(i),
        forall|h: int| 0 <= h < new_ids.len() && h != g ==> new_ids[h] == old_ids[h],
    ensures
        is_grouping(all.take(i + 1), keys, new_ids),
{
    let before = all.take(i);
    let now = all.take(i + 1);
    assert forall|h: int| 0 <= h < new_ids.len() implies (#[trigger] new_ids[h]).len() > 0 by {
        assert(old_ids[h].len() > 0);
    }
    assert forall|h: int, j: int| 0 <= h < new_ids.len() && 0 <= j < new_ids[h].len() implies 0 <= (
    #[trigger] new_ids[h][j]) < now.len() && now[new_ids[h][j]] == keys[h] by {
        if h == g && j == old_ids[g].len() {
        } else {
            assert(new_ids[h][j] == old_ids[h][j]);
            assert(before[old_ids[h][j]] == keys[h]);
        }
    }
    assert forall|h: int, j: int, k: int|
        0 <= h < new_ids.len() && 0 <= j < k < new_ids[h].len() implies (#[trigger] new_ids[h][j])
        < (#[trigger] new_ids[h][k]) by {
        assert(new_ids[h][j] == old_ids[h][j]);
        if h == g && k == old_ids[g].len() {
        } else {
            assert(new_ids[h][k] == old_ids[h][k]);
        }
    }
    assert forall|x: int| 0 <= x < now.len() implies #[trigger] is_member(new_ids, x) by {
        if x == i {
            assert(new_ids[g][old_ids[g].len() as int] == i);
        } else {
            assert(is_member(old_ids, x));
            let (h, j) = choose|h: int, j: int|
                0 <= h < old_ids.len() && 0 <= j < old_ids[h].len() && #[trigger] old_ids[h][j]
                    == x;
            assert(new_ids[h][j] == x);
        }
    }
    assert forall|h: int, k: int| 0 <= h < k < new_ids.len() implies (#[trigger] new_ids[h])[0] < (
    #[trigger] new_ids[k])[0] by {
        assert(old_ids[h].len() > 0 && old_ids[k].len() > 0);
        assert(new_ids[h][0] == old_ids[h][0]);
        assert(new_ids[k][0] == old_ids[k][0]);
        assert(old_ids[h][0] < old_ids[k][0]);
    }
}

/// Opening a new group for pattern `i`, whose key no group has, keeps a
/// grouping.
proof fn lemma_grouping_open(all: Seq<Seq<u8>>, i: int, keys: Seq<Seq<u8>>, ids: Seq<Seq<int>>)
    requires
        0 <= i < all.len(),
        is_grouping(all.take(i), keys, ids),
        forall|h: int| 0 <= h < keys.len() ==> #[trigger] keys[h] != all[i],
    ensures
        is_grouping(all.take(i + 1), keys.push(all[i]), ids.push(seq![i])),
{
    let before = all.take(i);
    let now = all.take(i + 1);
    let new_keys = keys.push(all[i]);
    let new_ids = ids.push(seq![i]);
    assert forall|h: int| 0 <= h < new_ids.len() implies (#[trigger] new_ids[h]).len() > 0 by {
        if h < ids.len() {
            assert(ids[h].len() > 0);
        }
    }
    assert forall|h: int, j: int| 0 <= h < new_ids.len() && 0 <= j < new_ids[h].len() implies 0 <= (
    #[trigger] new_ids[h][j]) < now.len() && now[new_ids[h][j]] == new_keys[h] by {
        if h < ids.len() {
            assert(new_ids[h][j] == ids[h][j]);
            assert(before[ids[h][j]] == keys[h]);
        }
    }
    assert forall|h: int, j: int, k: int|
        0 <= h < new_ids.len() && 0 <= j < k < new_ids[h].len() implies (#[trigger] new_ids[h][j])
        < (#[trigger] new_ids[h][k]) by {
        if h < ids.len() {
            assert(ids[h][j] < ids[h][k]);
        }
    }
    assert forall|h: int, k: int| 0 <= h < k < new_keys.len() implies #[trigger] new_keys[h]
        != #[trigger] new_keys[k] by {
        if k < keys.len() {
            assert(keys[h] != keys[k]);
        } else {
            assert(keys[h] != all[i]);
        }
    }
    assert forall|x: int| 0 <= x < now.len() implies #[trigger] is_member(new_ids, x) by {
        if x == i {
            assert(new_ids[ids.len() as int][0] == i);
        } else {
            assert(is_member(ids, x));
            let (h, j) = choose|h: int, j: int|
                0 <= h < ids.len() && 0 <= j < ids[h].len() && #[trigger] ids[h][j] == x;
            assert(new_ids[h][j] == x);
        }
    }
    assert forall|h: int, k: int| 0 <= h < k < new_ids.len() implies (#[trigger] new_ids[h])[0] < (
    #[trigger] new_ids[k])[0] by {
        assert(ids[h].len() > 0);
        if k < ids.len() {
            assert(ids[h][0] < ids[k][0]);
        } else {
            assert(0 <= ids[h][0] < before.len());
        }
    }
}

} // verus!
