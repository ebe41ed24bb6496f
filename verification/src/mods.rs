//! The mod records, the output record, and the sorter that projects an
//! unordered collection of mods into an ordered sequence of identifiers.

use core::cmp::Ordering;
use crate::name_order::modname_cmp;
use crate::name_order::name_cmp;
use vstd::prelude::*;
use vstd::seq_lib::lemma_multiset_commutative;

verus! {

/// Where a mod was installed from.
pub enum Source {
    Local,
    Steam,
}

/// Whether a mod is usable.
pub enum Status {
    InvalidMod,
    ReadyToPlay,
}

/// One installed modification. Only `display_name` is inspected by the
/// ordering logic and only `id` flows into the output; every other field is
/// carried through unchanged.
pub struct Mod {
    pub steam_id: String,
    pub display_name: String,
    pub tags: Option<Vec<String>>,
    pub time_updated: i64,
    pub source: Source,
    pub thumbnail_url: Option<String>,
    pub dir_path: String,
    pub status: Status,
    pub id: String,
    pub game_registry_id: Option<String>,
    pub thumbnail_path: String,
    pub required_version: Option<String>,
    pub archive_path: Option<String>,
}

/// The output record: the computed load order and the fixed acceptance flag.
pub struct GameData {
    pub mods_order: Vec<String>,
    pub is_eula_accepted: bool,
}

/// Insert `m` into `s` directly before the first record whose display name
/// is not below `m`'s; on a sorted `s` this keeps earlier input before `m`
/// among equal display names.
pub open spec fn insert_sorted(m: Mod, s: Seq<Mod>) -> Seq<Mod>
    decreases s.len(),
{
    if s.len() == 0 {
        seq![m]
    } else if name_cmp(s[0].display_name@, m.display_name@) == Ordering::Less {
        seq![s[0]] + insert_sorted(m, s.drop_first())
    } else {
        seq![m] + s
    }
}

/// Stable insertion sort of mod records by display name.
pub open spec fn sort_by_name(s: Seq<Mod>) -> Seq<Mod>
    decreases s.len(),
{
    if s.len() == 0 {
        Seq::empty()
    } else {
        insert_sorted(s[0], sort_by_name(s.drop_first()))
    }
}

/// No record's display name is above a later record's.
pub open spec fn sorted_by_name(s: Seq<Mod>) -> bool {
    forall|i: int, j: int|
        0 <= i < j < s.len() ==> name_cmp(s[i].display_name@, s[j].display_name@)
            != Ordering::Greater
}

/// The identifiers of a sequence of records, in order.
pub open spec fn ids_of(s: Seq<Mod>) -> Seq<Seq<char>> {
    s.map_values(|m: Mod| m.id@)
}

/// The character sequences behind a sequence of strings.
pub open spec fn views_of(s: Seq<String>) -> Seq<Seq<char>> {
    s.map_values(|t: String| t@)
}

/// Inserting a record adds exactly that record: the records of the result
/// are the records of `s` plus `m`, and the length grows by one.
pub proof fn lemma_insert_sorted_multiset(m: Mod, s: Seq<Mod>)
    ensures
        insert_sorted(m, s).to_multiset() == s.to_multiset().insert(m),
        insert_sorted(m, s).len() == s.len() + 1,
    decreases s.len(),
{
    broadcast use vstd::seq_lib::group_to_multiset_ensures;
    broadcast use vstd::multiset::group_multiset_axioms;
    broadcast use vstd::multiset::group_multiset_properties;

    if s.len() == 0 {
        assert(seq![m] =~= Seq::<Mod>::empty().push(m));
        assert(s =~= Seq::<Mod>::empty());
        assert(insert_sorted(m, s).to_multiset() =~= s.to_multiset().insert(m));
    } else if name_cmp(s[0].display_name@, m.display_name@) == Ordering::Less {
        lemma_insert_sorted_multiset(m, s.drop_first());
        lemma_multiset_commutative(seq![s[0]], insert_sorted(m, s.drop_first()));
        lemma_multiset_commutative(seq![s[0]], s.drop_first());
        assert(s =~= seq![s[0]] + s.drop_first());
        assert(seq![s[0]] =~= Seq::<Mod>::empty().push(s[0]));
        assert(insert_sorted(m, s).to_multiset() =~= s.to_multiset().insert(m));
    } else {
        lemma_multiset_commutative(seq![m], s);
        assert(seq![m] =~= Seq::<Mod>::empty().push(m));
        assert(insert_sorted(m, s).to_multiset() =~= s.to_multiset().insert(m));
    }
}

/// Sorting neither drops, duplicates nor invents records: the result holds
/// exactly the input records, and in particular has the input's length.
pub proof fn lemma_sort_by_name_multiset(s: Seq<Mod>)
    ensures
        sort_by_name(s).to_multiset() == s.to_multiset(),
        sort_by_name(s).len() == s.len(),
    decreases s.len(),
{
    broadcast use vstd::seq_lib::group_to_multiset_ensures;
    broadcast use vstd::multiset::group_multiset_axioms;

    if s.len() > 0 {
        lemma_sort_by_name_multiset(s.drop_first());
        lemma_insert_sorted_multiset(s[0], sort_by_name(s.drop_first()));
        lemma_multiset_commutative(seq![s[0]], s.drop_first());
        assert(s =~= seq![s[0]] + s.drop_first());
        assert(seq![s[0]] =~= Seq::<Mod>::empty().push(s[0]));
        assert(sort_by_name(s).to_multiset() =~= s.to_multiset());
    }
}

/// Inserting into a sorted sequence keeps it sorted.
proof fn lemma_insert_sorted_sorted(m: Mod, s: Seq<Mod>)
    requires
        sorted_by_name(s),
    ensures
        sorted_by_name(insert_sorted(m, s)),
    decreases s.len(),
{
    broadcast use vstd::seq_lib::group_to_multiset_ensures;
    broadcast use vstd::multiset::group_multiset_axioms;
    broadcast use vstd::multiset::group_multiset_properties;

    if s.len() == 0 {
    } else if name_cmp(s[0].display_name@, m.display_name@) == Ordering::Less {
        let rest = s.drop_first();
        let t = insert_sorted(m, rest);
        let r = seq![s[0]] + t;
        assert(sorted_by_name(rest)) by {
            assert forall|i: int, j: int| 0 <= i < j < rest.len() implies name_cmp(
                rest[i].display_name@,
                rest[j].display_name@,
            ) != Ordering::Greater by {
                assert(rest[i] == s[i + 1]);
                assert(rest[j] == s[j + 1]);
            }
        }
        lemma_insert_sorted_sorted(m, rest);
        lemma_insert_sorted_multiset(m, rest);
        assert forall|i: int, j: int| 0 <= i < j < r.len() implies name_cmp(
            r[i].display_name@,
            r[j].display_name@,
        ) != Ordering::Greater by {
            if i == 0 {
                let e = r[j];
                assert(e == t[j - 1]);
                assert(t.contains(e));
                assert(t.to_multiset().count(e) > 0);
                if e == m {
                    assert(name_cmp(s[0].display_name@, m.display_name@) == Ordering::Less);
                } else {
                    assert(rest.to_multiset().count(e) > 0);
                    assert(rest.contains(e));
                    let k = choose|k: int| 0 <= k < rest.len() && rest[k] == e;
                    assert(rest[k] == s[k + 1]);
                    assert(name_cmp(s[0].display_name@, s[k + 1].display_name@)
                        != Ordering::Greater);
                }
            } else {
                assert(r[i] == t[i - 1]);
                assert(r[j] == t[j - 1]);
            }
        }
        assert(insert_sorted(m, s) == r);
    } else {
        let r = seq![m] + s;
        crate::name_order::lemma_name_cmp_antisymmetric(s[0].display_name@, m.display_name@);
        assert(name_cmp(m.display_name@, s[0].display_name@) != Ordering::Greater);
        assert forall|i: int, j: int| 0 <= i < j < r.len() implies name_cmp(
            r[i].display_name@,
            r[j].display_name@,
        ) != Ordering::Greater by {
            if i == 0 {
                assert(r[j] == s[j - 1]);
                if j > 1 {
                    assert(name_cmp(s[0].display_name@, s[j - 1].display_name@)
                        != Ordering::Greater);
                    crate::name_order::lemma_name_cmp_le_transitive(
                        m.display_name@,
                        s[0].display_name@,
                        s[j - 1].display_name@,
                    );
                }
            } else {
                assert(r[i] == s[i - 1]);
                assert(r[j] == s[j - 1]);
            }
        }
        assert(insert_sorted(m, s) == r);
    }
}

/// The sorter's result is sorted by display name.
pub proof fn lemma_sort_by_name_sorted(s: Seq<Mod>)
    ensures
        sorted_by_name(sort_by_name(s)),
    decreases s.len(),
{
    if s.len() > 0 {
        lemma_sort_by_name_sorted(s.drop_first());
        lemma_insert_sorted_sorted(s[0], sort_by_name(s.drop_first()));
    }
}

/// Idempotence: a sequence that is already sorted comes back unchanged, so
/// sorting twice is the same as sorting once.
pub proof fn lemma_sort_by_name_identity_on_sorted(s: Seq<Mod>)
    requires
        sorted_by_name(s),
    ensures
        sort_by_name(s) == s,
    decreases s.len(),
{
    if s.len() == 0 {
        assert(sort_by_name(s) =~= s);
    } else {
        let rest = s.drop_first();
        assert(sorted_by_name(rest)) by {
            assert forall|i: int, j: int| 0 <= i < j < rest.len() implies name_cmp(
                rest[i].display_name@,
                rest[j].display_name@,
            ) != Ordering::Greater by {
                assert(rest[i] == s[i + 1]);
                assert(rest[j] == s[j + 1]);
            }
        }
        lemma_sort_by_name_identity_on_sorted(rest);
        if rest.len() == 0 {
            assert(sort_by_name(s) =~= s);
        } else {
            assert(rest[0] == s[1]);
            assert(name_cmp(s[0].display_name@, s[1].display_name@) != Ordering::Greater);
            crate::name_order::lemma_name_cmp_antisymmetric(
                s[0].display_name@,
                s[1].display_name@,
            );
            assert(name_cmp(rest[0].display_name@, s[0].display_name@) != Ordering::Less);
            assert(sort_by_name(s) =~= s);
        }
    }
}

/// Sorting a sorted sequence a second time changes nothing.
pub proof fn lemma_sort_by_name_idempotent(s: Seq<Mod>)
    ensures
        sort_by_name(sort_by_name(s)) == sort_by_name(s),
{
    lemma_sort_by_name_sorted(s);
    lemma_sort_by_name_identity_on_sorted(sort_by_name(s));
}

proof fn lemma_insert_sorted_ids(m: Mod, s: Seq<Mod>)
    ensures
        ids_of(insert_sorted(m, s)).to_multiset() == ids_of(s).to_multiset().insert(m.id@),
    decreases s.len(),
{
    broadcast use vstd::seq_lib::group_to_multiset_ensures;
    broadcast use vstd::multiset::group_multiset_axioms;
    broadcast use vstd::multiset::group_multiset_properties;

    if s.len() == 0 {
        assert(ids_of(insert_sorted(m, s)) =~= Seq::<Seq<char>>::empty().push(m.id@));
        assert(ids_of(s) =~= Seq::<Seq<char>>::empty());
        assert(ids_of(insert_sorted(m, s)).to_multiset() =~= ids_of(s).to_multiset().insert(
            m.id@,
        ));
    } else if name_cmp(s[0].display_name@, m.display_name@) == Ordering::Less {
        let rest = s.drop_first();
        let t = insert_sorted(m, rest);
        lemma_insert_sorted_ids(m, rest);
        assert(ids_of(seq![s[0]] + t) =~= seq![s[0].id@] + ids_of(t));
        assert(ids_of(s) =~= seq![s[0].id@] + ids_of(rest));
        lemma_multiset_commutative(seq![s[0].id@], ids_of(t));
        lemma_multiset_commutative(seq![s[0].id@], ids_of(rest));
        assert(seq![s[0].id@] =~= Seq::<Seq<char>>::empty().push(s[0].id@));
        assert(ids_of(insert_sorted(m, s)).to_multiset() =~= ids_of(s).to_multiset().insert(
            m.id@,
        ));
    } else {
        assert(ids_of(seq![m] + s) =~= seq![m.id@] + ids_of(s));
        lemma_multiset_commutative(seq![m.id@], ids_of(s));
        assert(seq![m.id@] =~= Seq::<Seq<char>>::empty().push(m.id@));
        assert(ids_of(insert_sorted(m, s)).to_multiset() =~= ids_of(s).to_multiset().insert(
            m.id@,
        ));
    }
}

/// Cardinality preservation: the ordered identifiers are exactly the input
/// records' identifiers — none lost, none duplicated — and as many as there
/// are input records.
pub proof fn lemma_sort_by_name_ids(s: Seq<Mod>)
    ensures
        ids_of(sort_by_name(s)).to_multiset() == ids_of(s).to_multiset(),
        ids_of(sort_by_name(s)).len() == s.len(),
    decreases s.len(),
{
    broadcast use vstd::seq_lib::group_to_multiset_ensures;
    broadcast use vstd::multiset::group_multiset_axioms;

    if s.len() == 0 {
        assert(ids_of(sort_by_name(s)) =~= ids_of(s));
    } else {
        let rest = s.drop_first();
        lemma_sort_by_name_ids(rest);
        lemma_insert_sorted_ids(s[0], sort_by_name(rest));
        lemma_insert_sorted_multiset(s[0], sort_by_name(rest));
        assert(ids_of(s) =~= seq![s[0].id@] + ids_of(rest));
        lemma_multiset_commutative(seq![s[0].id@], ids_of(rest));
        assert(seq![s[0].id@] =~= Seq::<Seq<char>>::empty().push(s[0].id@));
        assert(ids_of(sort_by_name(s)).to_multiset() =~= ids_of(s).to_multiset());
    }
}

fn find_insert_pos(v: &Vec<Mod>, m: &Mod) -> (j: usize)
    ensures
        j <= v@.len(),
        forall|k: int| 0 <= k < j ==> name_cmp(v@[k].display_name@, m.display_name@)
            == Ordering::Less,
        j < v@.len() ==> name_cmp(v@[j as int].display_name@, m.display_name@) != Ordering::Less,
{
    let mut j: usize = 0;
    while j < v.len()
        invariant
            j <= v@.len(),
            forall|k: int| 0 <= k < j ==> name_cmp(v@[k].display_name@, m.display_name@)
                == Ordering::Less,
        decreases v@.len() - j,
    {
        let c = modname_cmp(v[j].display_name.as_str(), m.display_name.as_str());
        let below = match c {
            Ordering::Less => true,
            _ => false,
        };
        if !below {
            return j;
        }
        j += 1;
    }
    j
}

/// Inserting at the position the scan finds is what `insert_sorted` does.
proof fn lemma_insert_sorted_at(m: Mod, s: Seq<Mod>, j: int)
    requires
        0 <= j <= s.len(),
        forall|k: int| 0 <= k < j ==> name_cmp(s[k].display_name@, m.display_name@)
            == Ordering::Less,
        j < s.len() ==> name_cmp(s[j].display_name@, m.display_name@) != Ordering::Less,
    ensures
        insert_sorted(m, s) == s.take(j) + seq![m] + s.skip(j),
    decreases j,
{
    if j == 0 {
        assert(insert_sorted(m, s) =~= s.take(0) + seq![m] + s.skip(0));
    } else {
        let rest = s.drop_first();
        assert(name_cmp(s[0].display_name@, m.display_name@) == Ordering::Less);
        assert forall|k: int| 0 <= k < j - 1 implies name_cmp(
            rest[k].display_name@,
            m.display_name@,
        ) == Ordering::Less by {
            assert(rest[k] == s[k + 1]);
        }
        lemma_insert_sorted_at(m, rest, j - 1);
        assert(insert_sorted(m, s) =~= s.take(j) + seq![m] + s.skip(j));
    }
}

fn insert_mod(m: Mod, v: Vec<Mod>) -> (r: Vec<Mod>)
    ensures
        r@ == insert_sorted(m, v@),
{
    let ghost before = v@;
    let j = find_insert_pos(&v, &m);
    proof {
        lemma_insert_sorted_at(m, v@, j as int);
    }
    let mut r = v;
    r.insert(j, m);
    proof {
        assert(r@ =~= before.take(j as int) + seq![m] + before.skip(j as int));
    }
    r
}

fn sort_mods(mods: Vec<Mod>) -> (r: Vec<Mod>)
    ensures
        r@ == sort_by_name(mods@),
{
    let ghost orig = mods@;
    let mut rest = mods;
    let mut r: Vec<Mod> = Vec::new();
    proof {
        assert(orig.take(orig.len() as int) =~= orig);
        assert(orig.skip(orig.len() as int) =~= Seq::<Mod>::empty());
    }
    while rest.len() > 0
        invariant
            rest@.len() <= orig.len(),
            rest@ == orig.take(rest@.len() as int),
            r@ == sort_by_name(orig.skip(rest@.len() as int)),
        decreases rest@.len(),
    {
        let ghost k = rest@.len() as int;
        let m = rest.pop().unwrap();
        proof {
            assert(m == orig[k - 1]);
            assert(rest@ =~= orig.take(k - 1));
            assert(orig.skip(k - 1).drop_first() =~= orig.skip(k));
            assert(orig.skip(k - 1)[0] == orig[k - 1]);
        }
        r = insert_mod(m, r);
    }
    proof {
        assert(orig.skip(0) =~= orig);
    }
    r
}

/// Sort the records by display name and project the ordered identifiers into
/// the output record, with the acceptance flag fixed to `true`.
pub fn mods_to_game_data_sorted(mods: Vec<Mod>) -> (gd: GameData)
    ensures
        gd.is_eula_accepted == true,
        views_of(gd.mods_order@) == ids_of(sort_by_name(mods@)),
        gd.mods_order@.len() == mods@.len(),
{
    let ghost orig = mods@;
    let sorted = sort_mods(mods);
    let mut order: Vec<String> = Vec::new();
    let mut i: usize = 0;
    proof {
        assert(views_of(order@) =~= ids_of(sorted@.take(0)));
    }
    while i < sorted.len()
        invariant
            i <= sorted@.len(),
            sorted@ == sort_by_name(orig),
            views_of(order@) == ids_of(sorted@.take(i as int)),
        decreases sorted@.len() - i,
    {
        let ghost prev = order@;
        let next_id = sorted[i].id.clone();
        assert(next_id@ == sorted@[i as int].id@);
        order.push(next_id);
        proof {
            assert(views_of(prev).len() == prev.len());
            assert(ids_of(sorted@.take(i as int)).len() == i as int);
            assert(prev.len() == i as int);
            assert(order@ == prev.push(next_id));
            assert forall|k: int| 0 <= k < order@.len() implies (#[trigger] views_of(order@)[k])
                == ids_of(sorted@.take(i + 1))[k] by {
                if k < i {
                    assert(views_of(prev)[k] == ids_of(sorted@.take(i as int))[k]);
                    assert(order@[k] == prev[k]);
                    assert(sorted@.take(i + 1)[k] == sorted@.take(i as int)[k]);
                } else {
                    assert(order@[k]@ == sorted@[i as int].id@);
                    assert(sorted@.take(i + 1)[k] == sorted@[i as int]);
                }
            }
            assert(views_of(order@) =~= ids_of(sorted@.take(i + 1)));
        }
        i += 1;
    }
    proof {
        assert(sorted@.take(sorted@.len() as int) =~= sorted@);
        lemma_sort_by_name_ids(orig);
        assert(views_of(order@).len() == order@.len());
    }
    GameData { mods_order: order, is_eula_accepted: true }
}

} // verus!
