//! The actions that turn the old document into the new one.

use vstd::prelude::*;

use crate::consumer::applier::{entry_index, has_entry};
use crate::document::{index_lookup, Document};
use crate::error::Result;
use crate::message::packed::format::fits;
use crate::patch::{Action, ActionView, Path, PathSegment, SegmentView};
use crate::message::packed::encoder::{lemma_packable_take, packable};
use crate::producer::cost::{action_fits, packed_len, packs_on, CostSession};
use crate::state::producer_state::ProducerStateTxn;
use crate::value::{items_view, kind_of, pairs_view, view_digest, Value, ValueInner, ValueView};

verus! {

/// The parts one after the other.
pub open spec fn concat(parts: Seq<Seq<ActionView>>) -> Seq<ActionView>
    decreases parts.len(),
{
    if parts.len() == 0 {
        Seq::empty()
    } else {
        concat(parts.drop_last()) + parts.last()
    }
}

/// The value of the old map's entry with the key `k`, if any.
pub open spec fn old_entry(om: Seq<(Seq<char>, ValueView)>, k: Seq<char>) -> Option<ValueView> {
    if has_entry(om, k) {
        Some(om[entry_index(om, k)].1)
    } else {
        None
    }
}

/// Whether the old value is there with the new value's content hash.
pub open spec fn unchanged(o: Option<ValueView>, n: ValueView) -> bool {
    o matches Some(x) && view_digest(x) == view_digest(n)
}

/// The action that sets the value at `at` by itself: a snapshot at the
/// root, an addition below it.
pub open spec fn direct_action(at: Seq<SegmentView>, n: ValueView) -> ActionView {
    if at.len() == 0 {
        ActionView::Snapshot(n)
    } else {
        ActionView::Add(at, n)
    }
}

/// One action that sets the value at `at` to `n`: the direct action, or a
/// copy from the path that the old document's index gives for `n`'s hash.
pub open spec fn leaf_ok(
    idx: Seq<(Seq<u8>, Seq<SegmentView>)>,
    at: Seq<SegmentView>,
    n: ValueView,
    acts: Seq<ActionView>,
) -> bool {
    &&& acts.len() == 1
    &&& (acts[0] == direct_action(at, n) || (index_lookup(idx, view_digest(n)) matches Some(f)
        && acts[0] == ActionView::Copy(at, f)))
}

/// The pools a cost session measures against: the string pool, the path
/// pool and their recency orders.
pub type Pools = (Map<u32, Seq<char>>, Map<u32, Seq<SegmentView>>, Seq<u32>, Seq<u32>);

/// The action selected after `acts` against the pools `base` to set a value:
/// the direct action, unless a copy is offered and either its message is
/// strictly shorter while both pack, or only the copy packs.
pub open spec fn chosen(
    acts: Seq<ActionView>,
    base: Pools,
    direct: ActionView,
    copy: Option<ActionView>,
) -> ActionView {
    match copy {
        None => direct,
        Some(c) => {
            let direct_ok = packs_on(acts.push(direct), base);
            let copy_ok = packs_on(acts.push(c), base);
            if direct_ok && copy_ok {
                if packed_len(acts.push(c), base) < packed_len(acts.push(direct), base) {
                    c
                } else {
                    direct
                }
            } else if direct_ok {
                direct
            } else {
                c
            }
        },
    }
}

/// Law: the selection takes the cheaper action. When both the direct
/// action and the copy pack after `acts`, the selected one leaves a message
/// no longer than the other, and when the two are equally long the direct
/// action is selected; when only one packs, that one is selected.
pub proof fn lemma_chosen_cheaper(acts: Seq<ActionView>, base: Pools, direct: ActionView, copy: ActionView)
    ensures
        ({
            let pick = chosen(acts, base, direct, Some(copy));
            let d_ok = packs_on(acts.push(direct), base);
            let c_ok = packs_on(acts.push(copy), base);
            &&& d_ok && c_ok ==> packed_len(acts.push(pick), base) <= packed_len(acts.push(direct), base)
                && packed_len(acts.push(pick), base) <= packed_len(acts.push(copy), base)
            &&& d_ok && c_ok && packed_len(acts.push(direct), base) == packed_len(acts.push(copy), base)
                ==> pick == direct
            &&& d_ok && !c_ok ==> pick == direct
            &&& !d_ok && c_ok ==> pick == copy
        }),
{
}

/// The copy that the old document's index offers for `n` at `at`, if any.
pub open spec fn offered_copy(
    idx: Seq<(Seq<u8>, Seq<SegmentView>)>,
    at: Seq<SegmentView>,
    n: ValueView,
) -> Option<ActionView> {
    match index_lookup(idx, view_digest(n)) {
        Some(f) => Some(ActionView::Copy(at, f)),
        None => None,
    }
}

/// The one action that sets the value at `at` to `n`, after `start`: the
/// direct action or the copy, as [`chosen`] selects.
pub open spec fn leaf_run(
    idx: Seq<(Seq<u8>, Seq<SegmentView>)>,
    base: Pools,
    start: Seq<ActionView>,
    at: Seq<SegmentView>,
    n: ValueView,
    acts: Seq<ActionView>,
) -> bool {
    acts == seq![chosen(start, base, direct_action(at, n), offered_copy(idx, at, n))]
}

/// Deletions of the old keys missing from the new map, in the old keys'
/// order.
pub open spec fn map_deletes(
    at: Seq<SegmentView>,
    om: Seq<(Seq<char>, ValueView)>,
    nm: Seq<(Seq<char>, ValueView)>,
) -> Seq<ActionView>
    decreases om.len(),
{
    if om.len() == 0 {
        Seq::empty()
    } else {
        map_deletes(at, om.drop_last(), nm) + if has_entry(nm, om.last().0) {
            Seq::empty()
        } else {
            seq![ActionView::Delete(at.push(SegmentView::Key(om.last().0)))]
        }
    }
}

/// Deletions of the items from `old_len - 1` down to `new_len`.
pub open spec fn array_deletes(at: Seq<SegmentView>, old_len: nat, new_len: nat) -> Seq<ActionView>
    decreases old_len,
{
    if old_len <= new_len {
        Seq::empty()
    } else {
        seq![ActionView::Delete(at.push(SegmentView::Index((old_len - 1) as nat)))] + array_deletes(
            at,
            (old_len - 1) as nat,
            new_len,
        )
    }
}

/// Whether `acts` are the diff, at `at`, from the old value `o` (if any) to
/// `n`: two maps or two arrays are compared entry by entry or item by item,
/// anything else is set in one action.
///
/// For maps, each new entry (in key order) has its part: none when the old
/// entry has the same hash, else the diff of the old entry, if any, and the
/// new one; the deletions of the old keys missing from the new map follow.
/// For arrays, each new item has its part: none when the old item has the
/// same hash; a replacement when the old item has another kind or the new
/// one is no container; else the diff of the old item, if any, and the new
/// one; the deletions of the old items past the new length follow, from the
/// last one.
pub open spec fn diff_ok(
    idx: Seq<(Seq<u8>, Seq<SegmentView>)>,
    at: Seq<SegmentView>,
    o: Option<ValueView>,
    n: ValueView,
    acts: Seq<ActionView>,
) -> bool
    decreases n,
{
    match o {
        Some(ValueView::Mapping(om)) => match n {
            ValueView::Mapping(nm) => exists|parts: Seq<Seq<ActionView>>|
                {
                    &&& parts.len() == nm.len()
                    &&& acts == #[trigger] concat(parts) + map_deletes(at, om, nm)
                    &&& forall|i: int|
                        0 <= i < nm.len() ==> if unchanged(old_entry(om, nm[i].0), nm[i].1) {
                            (#[trigger] parts[i]).len() == 0
                        } else {
                            diff_ok(
                                idx,
                                at.push(SegmentView::Key(nm[i].0)),
                                old_entry(om, nm[i].0),
                                nm[i].1,
                                parts[i],
                            )
                        }
                },
            _ => leaf_ok(idx, at, n, acts),
        },
        Some(ValueView::Array(oa)) => match n {
            ValueView::Array(na) => exists|parts: Seq<Seq<ActionView>>|
                {
                    &&& parts.len() == na.len()
                    &&& acts == #[trigger] concat(parts) + array_deletes(at, oa.len(), na.len())
                    &&& forall|i: int|
                        0 <= i < na.len() ==> if i < oa.len() && view_digest(oa[i]) == view_digest(
                            na[i],
                        ) {
                            (#[trigger] parts[i]).len() == 0
                        } else if i < oa.len() && (kind_of(oa[i]) != kind_of(na[i]) || !(na[i] is Mapping
                            || na[i] is Array)) {
                            parts[i] == seq![
                                ActionView::Replace(at.push(SegmentView::Index(i as nat)), na[i]),
                            ]
                        } else {
                            diff_ok(
                                idx,
                                at.push(SegmentView::Index(i as nat)),
                                if i < oa.len() {
                                    Some(oa[i])
                                } else {
                                    None
                                },
                                na[i],
                                parts[i],
                            )
                        }
                },
            _ => leaf_ok(idx, at, n, acts),
        },
        _ => leaf_ok(idx, at, n, acts),
    }
}

/// Whether `acts` are the diff that the differ selects, at `at`, from `o`
/// (if any) to `n`, after the actions `start` against the pools `base`: the
/// diff of [`diff_ok`], each part selected after the actions before it, and
/// each single action selected as [`leaf_run`] says.
pub open spec fn diff_run(
    idx: Seq<(Seq<u8>, Seq<SegmentView>)>,
    base: Pools,
    start: Seq<ActionView>,
    at: Seq<SegmentView>,
    o: Option<ValueView>,
    n: ValueView,
    acts: Seq<ActionView>,
) -> bool
    decreases n,
{
    match o {
        Some(ValueView::Mapping(om)) => match n {
            ValueView::Mapping(nm) => exists|parts: Seq<Seq<ActionView>>|
                {
                    &&& parts.len() == nm.len()
                    &&& acts == #[trigger] concat(parts) + map_deletes(at, om, nm)
                    &&& forall|i: int|
                        0 <= i < nm.len() ==> if unchanged(old_entry(om, nm[i].0), nm[i].1) {
                            (#[trigger] parts[i]).len() == 0
                        } else {
                            diff_run(
                                idx,
                                base,
                                start + concat(parts.take(i)),
                                at.push(SegmentView::Key(nm[i].0)),
                                old_entry(om, nm[i].0),
                                nm[i].1,
                                parts[i],
                            )
                        }
                },
            _ => leaf_run(idx, base, start, at, n, acts),
        },
        Some(ValueView::Array(oa)) => match n {
            ValueView::Array(na) => exists|parts: Seq<Seq<ActionView>>|
                {
                    &&& parts.len() == na.len()
                    &&& acts == #[trigger] concat(parts) + array_deletes(at, oa.len(), na.len())
                    &&& forall|i: int|
                        0 <= i < na.len() ==> if i < oa.len() && view_digest(oa[i]) == view_digest(
                            na[i],
                        ) {
                            (#[trigger] parts[i]).len() == 0
                        } else if i < oa.len() && (kind_of(oa[i]) != kind_of(na[i]) || !(na[i] is Mapping
                            || na[i] is Array)) {
                            parts[i] == seq![
                                ActionView::Replace(at.push(SegmentView::Index(i as nat)), na[i]),
                            ]
                        } else {
                            diff_run(
                                idx,
                                base,
                                start + concat(parts.take(i)),
                                at.push(SegmentView::Index(i as nat)),
                                if i < oa.len() {
                                    Some(oa[i])
                                } else {
                                    None
                                },
                                na[i],
                                parts[i],
                            )
                        }
                },
            _ => leaf_run(idx, base, start, at, n, acts),
        },
        _ => leaf_run(idx, base, start, at, n, acts),
    }
}

/// The part at entry `j` of the diff of two maps, as [`diff_ok`] states it.
pub open spec fn map_part_ok(
    idx: Seq<(Seq<u8>, Seq<SegmentView>)>,
    at: Seq<SegmentView>,
    om: Seq<(Seq<char>, ValueView)>,
    nm: Seq<(Seq<char>, ValueView)>,
    j: int,
    part: Seq<ActionView>,
) -> bool {
    if unchanged(old_entry(om, nm[j].0), nm[j].1) {
        part.len() == 0
    } else {
        diff_ok(idx, at.push(SegmentView::Key(nm[j].0)), old_entry(om, nm[j].0), nm[j].1, part)
    }
}

/// The part at item `j` of the diff of two arrays, as [`diff_ok`] states it.
pub open spec fn array_part_ok(
    idx: Seq<(Seq<u8>, Seq<SegmentView>)>,
    at: Seq<SegmentView>,
    oa: Seq<ValueView>,
    na: Seq<ValueView>,
    j: int,
    part: Seq<ActionView>,
) -> bool {
    if j < oa.len() && view_digest(oa[j]) == view_digest(na[j]) {
        part.len() == 0
    } else if j < oa.len() && (kind_of(oa[j]) != kind_of(na[j]) || !(na[j] is Mapping
        || na[j] is Array)) {
        part == seq![ActionView::Replace(at.push(SegmentView::Index(j as nat)), na[j])]
    } else {
        diff_ok(
            idx,
            at.push(SegmentView::Index(j as nat)),
            if j < oa.len() {
                Some(oa[j])
            } else {
                None
            },
            na[j],
            part,
        )
    }
}

/// Whether each action list that is a diff at `at` from `o` to `n`,
/// following `start`, always packs.
pub open spec fn diffs_packable(
    idx: Seq<(Seq<u8>, Seq<SegmentView>)>,
    at: Seq<SegmentView>,
    o: Option<ValueView>,
    n: ValueView,
    start: Seq<ActionView>,
) -> bool {
    forall|acts: Seq<ActionView>| #[trigger] diff_ok(idx, at, o, n, acts) ==> packable(start + acts)
}

/// The actions of parts put together are those of each, one after the
/// other.
pub proof fn lemma_concat_append(a: Seq<Seq<ActionView>>, b: Seq<Seq<ActionView>>)
    ensures
        concat(a + b) == concat(a) + concat(b),
    decreases b.len(),
{
    if b.len() == 0 {
        assert(a + b =~= a);
        assert(concat(a) + concat(b) =~= concat(a));
    } else {
        lemma_concat_append(a, b.drop_last());
        assert((a + b).drop_last() =~= a + b.drop_last());
        assert((a + b).last() == b.last());
        assert(concat(a + b) =~= concat(a) + concat(b));
    }
}

/// Every pair of values has a diff.
#[verifier::spinoff_prover]
pub proof fn lemma_diff_exists(
    idx: Seq<(Seq<u8>, Seq<SegmentView>)>,
    at: Seq<SegmentView>,
    o: Option<ValueView>,
    n: ValueView,
)
    ensures
        exists|acts: Seq<ActionView>| diff_ok(idx, at, o, n, acts),
    decreases n,
{
    let leaf = seq![direct_action(at, n)];
    assert(leaf_ok(idx, at, n, leaf));
    match o {
        Some(ValueView::Mapping(om)) => match n {
            ValueView::Mapping(nm) => {
                let parts = Seq::new(
                    nm.len(),
                    |j: int| choose|a: Seq<ActionView>| map_part_ok(idx, at, om, nm, j, a),
                );
                assert forall|j: int| 0 <= j < nm.len() implies map_part_ok(
                    idx,
                    at,
                    om,
                    nm,
                    j,
                    #[trigger] parts[j],
                ) by {
                    if unchanged(old_entry(om, nm[j].0), nm[j].1) {
                        assert(map_part_ok(idx, at, om, nm, j, Seq::empty()));
                    } else {
                        assert(decreases_to!(n => nm));
                        assert(decreases_to!(nm => nm[j]));
                        assert(decreases_to!(nm[j] => nm[j].1));
                        lemma_diff_exists(
                            idx,
                            at.push(SegmentView::Key(nm[j].0)),
                            old_entry(om, nm[j].0),
                            nm[j].1,
                        );
                        let a = choose|a: Seq<ActionView>|
                            #[trigger] diff_ok(
                                idx,
                                at.push(SegmentView::Key(nm[j].0)),
                                old_entry(om, nm[j].0),
                                nm[j].1,
                                a,
                            );
                        assert(map_part_ok(idx, at, om, nm, j, a));
                    }
                }
                assert(diff_ok(idx, at, o, n, concat(parts) + map_deletes(at, om, nm)));
            },
            _ => {
                assert(diff_ok(idx, at, o, n, leaf));
            },
        },
        Some(ValueView::Array(oa)) => match n {
            ValueView::Array(na) => {
                let parts = Seq::new(
                    na.len(),
                    |j: int| choose|a: Seq<ActionView>| array_part_ok(idx, at, oa, na, j, a),
                );
                assert forall|j: int| 0 <= j < na.len() implies array_part_ok(
                    idx,
                    at,
                    oa,
                    na,
                    j,
                    #[trigger] parts[j],
                ) by {
                    if j < oa.len() && view_digest(oa[j]) == view_digest(na[j]) {
                        assert(array_part_ok(idx, at, oa, na, j, Seq::empty()));
                    } else if j < oa.len() && (kind_of(oa[j]) != kind_of(na[j]) || !(na[j] is Mapping
                        || na[j] is Array)) {
                        assert(array_part_ok(
                            idx,
                            at,
                            oa,
                            na,
                            j,
                            seq![ActionView::Replace(at.push(SegmentView::Index(j as nat)), na[j])],
                        ));
                    } else {
                        assert(decreases_to!(n => na));
                        assert(decreases_to!(na => na[j]));
                        let ov = if j < oa.len() {
                            Some(oa[j])
                        } else {
                            None
                        };
                        lemma_diff_exists(idx, at.push(SegmentView::Index(j as nat)), ov, na[j]);
                        let a = choose|a: Seq<ActionView>|
                            #[trigger] diff_ok(idx, at.push(SegmentView::Index(j as nat)), ov, na[j], a);
                        assert(array_part_ok(idx, at, oa, na, j, a));
                    }
                }
                assert(diff_ok(idx, at, o, n, concat(parts) + array_deletes(at, oa.len(), na.len())));
            },
            _ => {
                assert(diff_ok(idx, at, o, n, leaf));
            },
        },
        _ => {
            assert(diff_ok(idx, at, o, n, leaf));
        },
    }
}

/// When each diff of two maps packs after `start`, so does each beginning of
/// one: the parts of the first entries, and with all parts the deletions.
#[verifier::spinoff_prover]
pub proof fn lemma_map_good(
    idx: Seq<(Seq<u8>, Seq<SegmentView>)>,
    at: Seq<SegmentView>,
    om: Seq<(Seq<char>, ValueView)>,
    nm: Seq<(Seq<char>, ValueView)>,
    prefix: Seq<Seq<ActionView>>,
    start: Seq<ActionView>,
)
    requires
        prefix.len() <= nm.len(),
        forall|j: int| 0 <= j < prefix.len() ==> map_part_ok(idx, at, om, nm, j, #[trigger] prefix[j]),
        diffs_packable(idx, at, Some(ValueView::Mapping(om)), ValueView::Mapping(nm), start),
    ensures
        packable(start + concat(prefix)),
        prefix.len() == nm.len() ==> packable(start + (concat(prefix) + map_deletes(at, om, nm))),
{
    let k = prefix.len() as int;
    let full = Seq::new(
        nm.len(),
        |j: int|
            if j < k {
                prefix[j]
            } else {
                choose|a: Seq<ActionView>| map_part_ok(idx, at, om, nm, j, a)
            },
    );
    assert forall|j: int| 0 <= j < nm.len() implies map_part_ok(idx, at, om, nm, j, #[trigger] full[j]) by {
        if j >= k {
            if unchanged(old_entry(om, nm[j].0), nm[j].1) {
                assert(map_part_ok(idx, at, om, nm, j, Seq::empty()));
            } else {
                lemma_diff_exists(idx, at.push(SegmentView::Key(nm[j].0)), old_entry(om, nm[j].0), nm[j].1);
                let a = choose|a: Seq<ActionView>|
                    #[trigger] diff_ok(idx, at.push(SegmentView::Key(nm[j].0)), old_entry(om, nm[j].0), nm[j].1, a);
                assert(map_part_ok(idx, at, om, nm, j, a));
            }
        }
    }
    let dels = map_deletes(at, om, nm);
    let acts = concat(full) + dels;
    assert(diff_ok(idx, at, Some(ValueView::Mapping(om)), ValueView::Mapping(nm), acts));
    assert(packable(start + acts));
    assert(full =~= prefix + full.skip(k));
    lemma_concat_append(prefix, full.skip(k));
    let x = start + concat(prefix);
    assert(start + acts =~= x + (concat(full.skip(k)) + dels));
    lemma_packable_take(start + acts, x.len() as int);
    assert((start + acts).take(x.len() as int) =~= x);
    if k == nm.len() {
        assert(full.skip(k) =~= Seq::<Seq<ActionView>>::empty());
        assert(start + (concat(prefix) + dels) =~= start + acts);
    }
}

/// When each diff of two arrays packs after `start`, so does each beginning
/// of one: the parts of the first items, and with all parts the deletions.
#[verifier::spinoff_prover]
pub proof fn lemma_array_good(
    idx: Seq<(Seq<u8>, Seq<SegmentView>)>,
    at: Seq<SegmentView>,
    oa: Seq<ValueView>,
    na: Seq<ValueView>,
    prefix: Seq<Seq<ActionView>>,
    start: Seq<ActionView>,
)
    requires
        prefix.len() <= na.len(),
        forall|j: int| 0 <= j < prefix.len() ==> array_part_ok(idx, at, oa, na, j, #[trigger] prefix[j]),
        diffs_packable(idx, at, Some(ValueView::Array(oa)), ValueView::Array(na), start),
    ensures
        packable(start + concat(prefix)),
        prefix.len() == na.len() ==> packable(
            start + (concat(prefix) + array_deletes(at, oa.len(), na.len())),
        ),
{
    let k = prefix.len() as int;
    let full = Seq::new(
        na.len(),
        |j: int|
            if j < k {
                prefix[j]
            } else {
                choose|a: Seq<ActionView>| array_part_ok(idx, at, oa, na, j, a)
            },
    );
    assert forall|j: int| 0 <= j < na.len() implies array_part_ok(idx, at, oa, na, j, #[trigger] full[j]) by {
        if j >= k {
            if j < oa.len() && view_digest(oa[j]) == view_digest(na[j]) {
                assert(array_part_ok(idx, at, oa, na, j, Seq::empty()));
            } else if j < oa.len() && (kind_of(oa[j]) != kind_of(na[j]) || !(na[j] is Mapping
                || na[j] is Array)) {
                assert(array_part_ok(
                    idx,
                    at,
                    oa,
                    na,
                    j,
                    seq![ActionView::Replace(at.push(SegmentView::Index(j as nat)), na[j])],
                ));
            } else {
                let ov = if j < oa.len() {
                    Some(oa[j])
                } else {
                    None
                };
                lemma_diff_exists(idx, at.push(SegmentView::Index(j as nat)), ov, na[j]);
                let a = choose|a: Seq<ActionView>|
                    #[trigger] diff_ok(idx, at.push(SegmentView::Index(j as nat)), ov, na[j], a);
                assert(array_part_ok(idx, at, oa, na, j, a));
            }
        }
    }
    let dels = array_deletes(at, oa.len(), na.len());
    let acts = concat(full) + dels;
    assert(diff_ok(idx, at, Some(ValueView::Array(oa)), ValueView::Array(na), acts));
    assert(packable(start + acts));
    assert(full =~= prefix + full.skip(k));
    lemma_concat_append(prefix, full.skip(k));
    let x = start + concat(prefix);
    assert(start + acts =~= x + (concat(full.skip(k)) + dels));
    lemma_packable_take(start + acts, x.len() as int);
    assert((start + acts).take(x.len() as int) =~= x);
    if k == na.len() {
        assert(full.skip(k) =~= Seq::<Seq<ActionView>>::empty());
        assert(start + (concat(prefix) + dels) =~= start + acts);
    }
}

/// When each diff of two maps packs after `start`, the parts of the first
/// entries and a part for the next one pack after it.
pub proof fn lemma_map_step_good(
    idx: Seq<(Seq<u8>, Seq<SegmentView>)>,
    at: Seq<SegmentView>,
    om: Seq<(Seq<char>, ValueView)>,
    nm: Seq<(Seq<char>, ValueView)>,
    parts: Seq<Seq<ActionView>>,
    part: Seq<ActionView>,
    start: Seq<ActionView>,
)
    requires
        parts.len() < nm.len(),
        forall|j: int| 0 <= j < parts.len() ==> map_part_ok(idx, at, om, nm, j, #[trigger] parts[j]),
        map_part_ok(idx, at, om, nm, parts.len() as int, part),
        diffs_packable(idx, at, Some(ValueView::Mapping(om)), ValueView::Mapping(nm), start),
    ensures
        packable(start + concat(parts) + part),
{
    let ps = parts.push(part);
    assert forall|j: int| 0 <= j < ps.len() implies map_part_ok(idx, at, om, nm, j, #[trigger] ps[j]) by {
        if j < parts.len() {
            assert(ps[j] == parts[j]);
        }
    }
    lemma_map_good(idx, at, om, nm, ps, start);
    assert(ps.drop_last() =~= parts);
    assert(start + concat(ps) =~= start + concat(parts) + part);
}

/// When each diff of two arrays packs after `start`, the parts of the first
/// items and a part for the next one pack after it.
pub proof fn lemma_array_step_good(
    idx: Seq<(Seq<u8>, Seq<SegmentView>)>,
    at: Seq<SegmentView>,
    oa: Seq<ValueView>,
    na: Seq<ValueView>,
    parts: Seq<Seq<ActionView>>,
    part: Seq<ActionView>,
    start: Seq<ActionView>,
)
    requires
        parts.len() < na.len(),
        forall|j: int| 0 <= j < parts.len() ==> array_part_ok(idx, at, oa, na, j, #[trigger] parts[j]),
        array_part_ok(idx, at, oa, na, parts.len() as int, part),
        diffs_packable(idx, at, Some(ValueView::Array(oa)), ValueView::Array(na), start),
    ensures
        packable(start + concat(parts) + part),
{
    let ps = parts.push(part);
    assert forall|j: int| 0 <= j < ps.len() implies array_part_ok(idx, at, oa, na, j, #[trigger] ps[j]) by {
        if j < parts.len() {
            assert(ps[j] == parts[j]);
        }
    }
    lemma_array_good(idx, at, oa, na, ps, start);
    assert(ps.drop_last() =~= parts);
    assert(start + concat(ps) =~= start + concat(parts) + part);
}

/// The deletions of the first old keys begin those of all of them.
pub proof fn lemma_map_deletes_prefix(
    at: Seq<SegmentView>,
    om: Seq<(Seq<char>, ValueView)>,
    nm: Seq<(Seq<char>, ValueView)>,
    j: int,
)
    requires
        0 <= j <= om.len(),
    ensures
        map_deletes(at, om.take(j), nm).is_prefix_of(map_deletes(at, om, nm)),
    decreases om.len() - j,
{
    if j == om.len() {
        assert(om.take(j) =~= om);
    } else {
        lemma_map_deletes_prefix(at, om, nm, j + 1);
        assert(om.take(j + 1).drop_last() =~= om.take(j));
        crate::protocol::preparation::lemma_prefix_trans(
            map_deletes(at, om.take(j), nm),
            map_deletes(at, om.take(j + 1), nm),
            map_deletes(at, om, nm),
        );
    }
}

/// Whether each action of `acts`, selected after `start`, leaves a message
/// that packs against the pools `base`.
pub open spec fn steps_pack(base: Pools, start: Seq<ActionView>, acts: Seq<ActionView>) -> bool {
    forall|k: int|
        start.len() < k <= start.len() + acts.len() ==> #[trigger] packs_on((start + acts).take(k), base)
}

/// Whether the diff that the differ selects, at `at`, from `o` (if any) to
/// `n`, after `start`, packs at each of its actions.
pub open spec fn runs_pack(
    idx: Seq<(Seq<u8>, Seq<SegmentView>)>,
    base: Pools,
    start: Seq<ActionView>,
    at: Seq<SegmentView>,
    o: Option<ValueView>,
    n: ValueView,
) -> bool {
    forall|acts: Seq<ActionView>| #[trigger] diff_run(idx, base, start, at, o, n, acts) ==> steps_pack(base, start, acts)
}

/// The part at entry `j` of the diff of two maps that the differ selects
/// after `start` and the parts `before` of the entries before it.
pub open spec fn map_part_run(
    idx: Seq<(Seq<u8>, Seq<SegmentView>)>,
    base: Pools,
    start: Seq<ActionView>,
    at: Seq<SegmentView>,
    om: Seq<(Seq<char>, ValueView)>,
    nm: Seq<(Seq<char>, ValueView)>,
    before: Seq<Seq<ActionView>>,
    j: int,
    part: Seq<ActionView>,
) -> bool {
    if unchanged(old_entry(om, nm[j].0), nm[j].1) {
        part.len() == 0
    } else {
        diff_run(
            idx,
            base,
            start + concat(before),
            at.push(SegmentView::Key(nm[j].0)),
            old_entry(om, nm[j].0),
            nm[j].1,
            part,
        )
    }
}

/// The part at item `j` of the diff of two arrays that the differ selects
/// after `start` and the parts `before` of the items before it.
pub open spec fn array_part_run(
    idx: Seq<(Seq<u8>, Seq<SegmentView>)>,
    base: Pools,
    start: Seq<ActionView>,
    at: Seq<SegmentView>,
    oa: Seq<ValueView>,
    na: Seq<ValueView>,
    before: Seq<Seq<ActionView>>,
    j: int,
    part: Seq<ActionView>,
) -> bool {
    if j < oa.len() && view_digest(oa[j]) == view_digest(na[j]) {
        part.len() == 0
    } else if j < oa.len() && (kind_of(oa[j]) != kind_of(na[j]) || !(na[j] is Mapping
        || na[j] is Array)) {
        part == seq![ActionView::Replace(at.push(SegmentView::Index(j as nat)), na[j])]
    } else {
        diff_run(
            idx,
            base,
            start + concat(before),
            at.push(SegmentView::Index(j as nat)),
            if j < oa.len() {
                Some(oa[j])
            } else {
                None
            },
            na[j],
            part,
        )
    }
}

/// Every pair of values has a diff that the differ selects, after any
/// actions.
#[verifier::spinoff_prover]
pub proof fn lemma_run_exists(
    idx: Seq<(Seq<u8>, Seq<SegmentView>)>,
    base: Pools,
    start: Seq<ActionView>,
    at: Seq<SegmentView>,
    o: Option<ValueView>,
    n: ValueView,
)
    ensures
        exists|acts: Seq<ActionView>| diff_run(idx, base, start, at, o, n, acts),
    decreases n, 1nat, 0nat,
{
    let leaf = seq![chosen(start, base, direct_action(at, n), offered_copy(idx, at, n))];
    assert(leaf_run(idx, base, start, at, n, leaf));
    match o {
        Some(ValueView::Mapping(om)) => match n {
            ValueView::Mapping(nm) => {
                lemma_map_run_extend(idx, base, start, at, om, nm, n, Seq::empty());
                let full = choose|full: Seq<Seq<ActionView>>|
                    full.len() == nm.len() && forall|j: int|
                        0 <= j < nm.len() ==> map_part_run(idx, base, start, at, om, nm, full.take(j), j, #[trigger] full[j]);
                assert(diff_run(idx, base, start, at, o, n, concat(full) + map_deletes(at, om, nm)));
            },
            _ => {
                assert(diff_run(idx, base, start, at, o, n, leaf));
            },
        },
        Some(ValueView::Array(oa)) => match n {
            ValueView::Array(na) => {
                lemma_array_run_extend(idx, base, start, at, oa, na, n, Seq::empty());
                let full = choose|full: Seq<Seq<ActionView>>|
                    full.len() == na.len() && forall|j: int|
                        0 <= j < na.len() ==> array_part_run(idx, base, start, at, oa, na, full.take(j), j, #[trigger] full[j]);
                assert(diff_run(
                    idx,
                    base,
                    start,
                    at,
                    o,
                    n,
                    concat(full) + array_deletes(at, oa.len(), na.len()),
                ));
            },
            _ => {
                assert(diff_run(idx, base, start, at, o, n, leaf));
            },
        },
        _ => {
            assert(diff_run(idx, base, start, at, o, n, leaf));
        },
    }
}

/// The parts of the first entries of a map diff extend to parts of all of
/// them.
#[verifier::spinoff_prover]
pub proof fn lemma_map_run_extend(
    idx: Seq<(Seq<u8>, Seq<SegmentView>)>,
    base: Pools,
    start: Seq<ActionView>,
    at: Seq<SegmentView>,
    om: Seq<(Seq<char>, ValueView)>,
    nm: Seq<(Seq<char>, ValueView)>,
    whole: ValueView,
    parts: Seq<Seq<ActionView>>,
)
    requires
        whole == ValueView::Mapping(nm),
        parts.len() <= nm.len(),
        forall|j: int|
            0 <= j < parts.len() ==> map_part_run(idx, base, start, at, om, nm, parts.take(j), j, #[trigger] parts[j]),
    ensures
        exists|full: Seq<Seq<ActionView>>|
            full.len() == nm.len() && full.take(parts.len() as int) == parts && forall|j: int|
                0 <= j < nm.len() ==> map_part_run(idx, base, start, at, om, nm, full.take(j), j, #[trigger] full[j]),
    decreases whole, 0nat, nm.len() - parts.len(),
{
    let k = parts.len() as int;
    if k == nm.len() {
        assert(parts.take(k) =~= parts);
    } else {
        let part = if unchanged(old_entry(om, nm[k].0), nm[k].1) {
            Seq::<ActionView>::empty()
        } else {
            assert(decreases_to!(whole => whole->Mapping_0));
            assert(decreases_to!(nm => nm[k]));
            assert(decreases_to!(nm[k] => nm[k].1));
            lemma_run_exists(
                idx,
                base,
                start + concat(parts),
                at.push(SegmentView::Key(nm[k].0)),
                old_entry(om, nm[k].0),
                nm[k].1,
            );
            choose|a: Seq<ActionView>|
                #[trigger] diff_run(
                    idx,
                    base,
                    start + concat(parts),
                    at.push(SegmentView::Key(nm[k].0)),
                    old_entry(om, nm[k].0),
                    nm[k].1,
                    a,
                )
        };
        let ps = parts.push(part);
        assert(ps.take(k) =~= parts);
        assert forall|j: int| 0 <= j < ps.len() implies map_part_run(idx, base, start, at, om, nm, ps.take(j), j, #[trigger] ps[j]) by {
            if j < k {
                assert(ps.take(j) =~= parts.take(j));
                assert(ps[j] == parts[j]);
            }
        }
        lemma_map_run_extend(idx, base, start, at, om, nm, whole, ps);
        let full = choose|full: Seq<Seq<ActionView>>|
            full.len() == nm.len() && full.take(ps.len() as int) == ps && forall|j: int|
                0 <= j < nm.len() ==> map_part_run(idx, base, start, at, om, nm, full.take(j), j, #[trigger] full[j]);
        assert(full.take(k) =~= ps.take(k));
    }
}

/// The parts of the first items of an array diff extend to parts of all of
/// them.
#[verifier::spinoff_prover]
pub proof fn lemma_array_run_extend(
    idx: Seq<(Seq<u8>, Seq<SegmentView>)>,
    base: Pools,
    start: Seq<ActionView>,
    at: Seq<SegmentView>,
    oa: Seq<ValueView>,
    na: Seq<ValueView>,
    whole: ValueView,
    parts: Seq<Seq<ActionView>>,
)
    requires
        whole == ValueView::Array(na),
        parts.len() <= na.len(),
        forall|j: int|
            0 <= j < parts.len() ==> array_part_run(idx, base, start, at, oa, na, parts.take(j), j, #[trigger] parts[j]),
    ensures
        exists|full: Seq<Seq<ActionView>>|
            full.len() == na.len() && full.take(parts.len() as int) == parts && forall|j: int|
                0 <= j < na.len() ==> array_part_run(idx, base, start, at, oa, na, full.take(j), j, #[trigger] full[j]),
    decreases whole, 0nat, na.len() - parts.len(),
{
    let k = parts.len() as int;
    if k == na.len() {
        assert(parts.take(k) =~= parts);
    } else {
        let ov = if k < oa.len() {
            Some(oa[k])
        } else {
            None
        };
        let part = if k < oa.len() && view_digest(oa[k]) == view_digest(na[k]) {
            Seq::<ActionView>::empty()
        } else if k < oa.len() && (kind_of(oa[k]) != kind_of(na[k]) || !(na[k] is Mapping
            || na[k] is Array)) {
            seq![ActionView::Replace(at.push(SegmentView::Index(k as nat)), na[k])]
        } else {
            assert(decreases_to!(whole => whole->Array_0));
            assert(decreases_to!(na => na[k]));
            lemma_run_exists(idx, base, start + concat(parts), at.push(SegmentView::Index(k as nat)), ov, na[k]);
            choose|a: Seq<ActionView>|
                #[trigger] diff_run(
                    idx,
                    base,
                    start + concat(parts),
                    at.push(SegmentView::Index(k as nat)),
                    ov,
                    na[k],
                    a,
                )
        };
        let ps = parts.push(part);
        assert(ps.take(k) =~= parts);
        assert forall|j: int| 0 <= j < ps.len() implies array_part_run(idx, base, start, at, oa, na, ps.take(j), j, #[trigger] ps[j]) by {
            if j < k {
                assert(ps.take(j) =~= parts.take(j));
                assert(ps[j] == parts[j]);
            }
        }
        lemma_array_run_extend(idx, base, start, at, oa, na, whole, ps);
        let full = choose|full: Seq<Seq<ActionView>>|
            full.len() == na.len() && full.take(ps.len() as int) == ps && forall|j: int|
                0 <= j < na.len() ==> array_part_run(idx, base, start, at, oa, na, full.take(j), j, #[trigger] full[j]);
        assert(full.take(k) =~= ps.take(k));
    }
}

/// Steps that pack after `start` include those of each prefix.
pub proof fn lemma_steps_pack_take(base: Pools, start: Seq<ActionView>, acts: Seq<ActionView>, n: int)
    requires
        steps_pack(base, start, acts),
        0 <= n <= acts.len(),
    ensures
        steps_pack(base, start, acts.take(n)),
{
    assert forall|k: int| start.len() < k <= start.len() + acts.take(n).len() implies #[trigger] packs_on(
        (start + acts.take(n)).take(k),
        base,
    ) by {
        assert((start + acts.take(n)).take(k) =~= (start + acts).take(k));
    }
}

/// Steps that pack after `start` through `a` and then `b` are steps of `b`
/// that pack after `start + a`.
pub proof fn lemma_steps_pack_shift(base: Pools, start: Seq<ActionView>, a: Seq<ActionView>, b: Seq<ActionView>)
    requires
        steps_pack(base, start, a + b),
    ensures
        steps_pack(base, start + a, b),
{
    assert forall|k: int| (start + a).len() < k <= (start + a).len() + b.len() implies #[trigger] packs_on(
        ((start + a) + b).take(k),
        base,
    ) by {
        assert(((start + a) + b) =~= start + (a + b));
    }
}

/// When the selected diff of two maps packs at each step after `start`, so
/// does each beginning of it: the parts of the first entries, and with all
/// parts the deletions.
#[verifier::spinoff_prover]
pub proof fn lemma_map_run_good(
    idx: Seq<(Seq<u8>, Seq<SegmentView>)>,
    base: Pools,
    start: Seq<ActionView>,
    at: Seq<SegmentView>,
    om: Seq<(Seq<char>, ValueView)>,
    nm: Seq<(Seq<char>, ValueView)>,
    ps: Seq<Seq<ActionView>>,
)
    requires
        ps.len() <= nm.len(),
        forall|j: int|
            0 <= j < ps.len() ==> map_part_run(idx, base, start, at, om, nm, ps.take(j), j, #[trigger] ps[j]),
        runs_pack(idx, base, start, at, Some(ValueView::Mapping(om)), ValueView::Mapping(nm)),
    ensures
        steps_pack(base, start, concat(ps)),
        ps.len() == nm.len() ==> steps_pack(base, start, concat(ps) + map_deletes(at, om, nm)),
{
    let k = ps.len() as int;
    lemma_map_run_extend(idx, base, start, at, om, nm, ValueView::Mapping(nm), ps);
    let full = choose|full: Seq<Seq<ActionView>>|
        full.len() == nm.len() && full.take(k) == ps && forall|j: int|
            0 <= j < nm.len() ==> map_part_run(idx, base, start, at, om, nm, full.take(j), j, #[trigger] full[j]);
    let dels = map_deletes(at, om, nm);
    let acts = concat(full) + dels;
    assert(diff_run(idx, base, start, at, Some(ValueView::Mapping(om)), ValueView::Mapping(nm), acts));
    assert(steps_pack(base, start, acts));
    assert(full =~= ps + full.skip(k));
    lemma_concat_append(ps, full.skip(k));
    assert(acts.take(concat(ps).len() as int) =~= concat(ps));
    lemma_steps_pack_take(base, start, acts, concat(ps).len() as int);
    if k == nm.len() {
        assert(full.skip(k) =~= Seq::<Seq<ActionView>>::empty());
        assert(concat(ps) + dels =~= acts);
    }
}

/// When the selected diff of two arrays packs at each step after `start`,
/// so does each beginning of it: the parts of the first items, and with all
/// parts the deletions.
#[verifier::spinoff_prover]
pub proof fn lemma_array_run_good(
    idx: Seq<(Seq<u8>, Seq<SegmentView>)>,
    base: Pools,
    start: Seq<ActionView>,
    at: Seq<SegmentView>,
    oa: Seq<ValueView>,
    na: Seq<ValueView>,
    ps: Seq<Seq<ActionView>>,
)
    requires
        ps.len() <= na.len(),
        forall|j: int|
            0 <= j < ps.len() ==> array_part_run(idx, base, start, at, oa, na, ps.take(j), j, #[trigger] ps[j]),
        runs_pack(idx, base, start, at, Some(ValueView::Array(oa)), ValueView::Array(na)),
    ensures
        steps_pack(base, start, concat(ps)),
        ps.len() == na.len() ==> steps_pack(
            base,
            start,
            concat(ps) + array_deletes(at, oa.len(), na.len()),
        ),
{
    let k = ps.len() as int;
    lemma_array_run_extend(idx, base, start, at, oa, na, ValueView::Array(na), ps);
    let full = choose|full: Seq<Seq<ActionView>>|
        full.len() == na.len() && full.take(k) == ps && forall|j: int|
            0 <= j < na.len() ==> array_part_run(idx, base, start, at, oa, na, full.take(j), j, #[trigger] full[j]);
    let dels = array_deletes(at, oa.len(), na.len());
    let acts = concat(full) + dels;
    assert(diff_run(idx, base, start, at, Some(ValueView::Array(oa)), ValueView::Array(na), acts));
    assert(steps_pack(base, start, acts));
    assert(full =~= ps + full.skip(k));
    lemma_concat_append(ps, full.skip(k));
    assert(acts.take(concat(ps).len() as int) =~= concat(ps));
    lemma_steps_pack_take(base, start, acts, concat(ps).len() as int);
    if k == na.len() {
        assert(full.skip(k) =~= Seq::<Seq<ActionView>>::empty());
        assert(concat(ps) + dels =~= acts);
    }
}

/// When the selected diff of two maps packs at each step after `start`, the
/// part selected for the next entry packs at each step after the parts of
/// the entries before it.
pub proof fn lemma_map_run_step(
    idx: Seq<(Seq<u8>, Seq<SegmentView>)>,
    base: Pools,
    start: Seq<ActionView>,
    at: Seq<SegmentView>,
    om: Seq<(Seq<char>, ValueView)>,
    nm: Seq<(Seq<char>, ValueView)>,
    parts: Seq<Seq<ActionView>>,
    part: Seq<ActionView>,
)
    requires
        parts.len() < nm.len(),
        forall|j: int|
            0 <= j < parts.len() ==> map_part_run(idx, base, start, at, om, nm, parts.take(j), j, #[trigger] parts[j]),
        map_part_run(idx, base, start, at, om, nm, parts, parts.len() as int, part),
        runs_pack(idx, base, start, at, Some(ValueView::Mapping(om)), ValueView::Mapping(nm)),
    ensures
        steps_pack(base, start + concat(parts), part),
{
    let ps = parts.push(part);
    assert forall|j: int| 0 <= j < ps.len() implies map_part_run(idx, base, start, at, om, nm, ps.take(j), j, #[trigger] ps[j]) by {
        if j < parts.len() {
            assert(ps.take(j) =~= parts.take(j));
            assert(ps[j] == parts[j]);
        } else {
            assert(ps.take(j) =~= parts);
        }
    }
    lemma_map_run_good(idx, base, start, at, om, nm, ps);
    assert(ps.drop_last() =~= parts);
    lemma_steps_pack_shift(base, start, concat(parts), part);
}

/// When the selected diff of two arrays packs at each step after `start`,
/// the part selected for the next item packs at each step after the parts
/// of the items before it.
pub proof fn lemma_array_run_step(
    idx: Seq<(Seq<u8>, Seq<SegmentView>)>,
    base: Pools,
    start: Seq<ActionView>,
    at: Seq<SegmentView>,
    oa: Seq<ValueView>,
    na: Seq<ValueView>,
    parts: Seq<Seq<ActionView>>,
    part: Seq<ActionView>,
)
    requires
        parts.len() < na.len(),
        forall|j: int|
            0 <= j < parts.len() ==> array_part_run(idx, base, start, at, oa, na, parts.take(j), j, #[trigger] parts[j]),
        array_part_run(idx, base, start, at, oa, na, parts, parts.len() as int, part),
        runs_pack(idx, base, start, at, Some(ValueView::Array(oa)), ValueView::Array(na)),
    ensures
        steps_pack(base, start + concat(parts), part),
{
    let ps = parts.push(part);
    assert forall|j: int| 0 <= j < ps.len() implies array_part_run(idx, base, start, at, oa, na, ps.take(j), j, #[trigger] ps[j]) by {
        if j < parts.len() {
            assert(ps.take(j) =~= parts.take(j));
            assert(ps[j] == parts[j]);
        } else {
            assert(ps.take(j) =~= parts);
        }
    }
    lemma_array_run_good(idx, base, start, at, oa, na, ps);
    assert(ps.drop_last() =~= parts);
    lemma_steps_pack_shift(base, start, concat(parts), part);
}

/// Law: the differ's selection is determined. Two action lists that are
/// both the diff that the differ selects, from the same values after the
/// same actions against the same pools, are equal.
#[verifier::spinoff_prover]
pub proof fn lemma_run_unique(
    idx: Seq<(Seq<u8>, Seq<SegmentView>)>,
    base: Pools,
    start: Seq<ActionView>,
    at: Seq<SegmentView>,
    o: Option<ValueView>,
    n: ValueView,
    a1: Seq<ActionView>,
    a2: Seq<ActionView>,
)
    requires
        diff_run(idx, base, start, at, o, n, a1),
        diff_run(idx, base, start, at, o, n, a2),
    ensures
        a1 == a2,
    decreases n, 1nat, 0nat,
{
    match o {
        Some(ValueView::Mapping(om)) => match n {
            ValueView::Mapping(nm) => {
                let p1 = choose|parts: Seq<Seq<ActionView>>|
                    {
                        &&& parts.len() == nm.len()
                        &&& a1 == #[trigger] concat(parts) + map_deletes(at, om, nm)
                        &&& forall|i: int|
                            0 <= i < nm.len() ==> map_part_run(idx, base, start, at, om, nm, parts.take(i), i, #[trigger] parts[i])
                    };
                let p2 = choose|parts: Seq<Seq<ActionView>>|
                    {
                        &&& parts.len() == nm.len()
                        &&& a2 == #[trigger] concat(parts) + map_deletes(at, om, nm)
                        &&& forall|i: int|
                            0 <= i < nm.len() ==> map_part_run(idx, base, start, at, om, nm, parts.take(i), i, #[trigger] parts[i])
                    };
                lemma_map_parts_unique(idx, base, start, at, om, nm, n, p1, p2, nm.len() as int);
                assert(p1 =~= p1.take(nm.len() as int));
                assert(p2 =~= p2.take(nm.len() as int));
            },
            _ => {},
        },
        Some(ValueView::Array(oa)) => match n {
            ValueView::Array(na) => {
                let p1 = choose|parts: Seq<Seq<ActionView>>|
                    {
                        &&& parts.len() == na.len()
                        &&& a1 == #[trigger] concat(parts) + array_deletes(at, oa.len(), na.len())
                        &&& forall|i: int|
                            0 <= i < na.len() ==> array_part_run(idx, base, start, at, oa, na, parts.take(i), i, #[trigger] parts[i])
                    };
                let p2 = choose|parts: Seq<Seq<ActionView>>|
                    {
                        &&& parts.len() == na.len()
                        &&& a2 == #[trigger] concat(parts) + array_deletes(at, oa.len(), na.len())
                        &&& forall|i: int|
                            0 <= i < na.len() ==> array_part_run(idx, base, start, at, oa, na, parts.take(i), i, #[trigger] parts[i])
                    };
                lemma_array_parts_unique(idx, base, start, at, oa, na, n, p1, p2, na.len() as int);
                assert(p1 =~= p1.take(na.len() as int));
                assert(p2 =~= p2.take(na.len() as int));
            },
            _ => {},
        },
        _ => {},
    }
}

/// The parts of the first `k` entries of two selected map diffs agree.
#[verifier::spinoff_prover]
#[verifier::rlimit(100)]
proof fn lemma_map_parts_unique(
    idx: Seq<(Seq<u8>, Seq<SegmentView>)>,
    base: Pools,
    start: Seq<ActionView>,
    at: Seq<SegmentView>,
    om: Seq<(Seq<char>, ValueView)>,
    nm: Seq<(Seq<char>, ValueView)>,
    whole: ValueView,
    p1: Seq<Seq<ActionView>>,
    p2: Seq<Seq<ActionView>>,
    k: int,
)
    requires
        whole == ValueView::Mapping(nm),
        p1.len() == nm.len(),
        p2.len() == nm.len(),
        0 <= k <= nm.len(),
        forall|i: int|
            0 <= i < nm.len() ==> map_part_run(idx, base, start, at, om, nm, p1.take(i), i, #[trigger] p1[i]),
        forall|i: int|
            0 <= i < nm.len() ==> map_part_run(idx, base, start, at, om, nm, p2.take(i), i, #[trigger] p2[i]),
    ensures
        p1.take(k) == p2.take(k),
    decreases whole, 0nat, k,
{
    if k == 0 {
        assert(p1.take(0) =~= p2.take(0));
    } else {
        let j = k - 1;
        lemma_map_parts_unique(idx, base, start, at, om, nm, whole, p1, p2, j);
        assert(map_part_run(idx, base, start, at, om, nm, p1.take(j), j, p1[j]));
        assert(map_part_run(idx, base, start, at, om, nm, p2.take(j), j, p2[j]));
        if !unchanged(old_entry(om, nm[j].0), nm[j].1) {
            assert(decreases_to!(whole => whole->Mapping_0));
            assert(decreases_to!(nm => nm[j]));
            assert(decreases_to!(nm[j] => nm[j].1));
            lemma_run_unique(
                idx,
                base,
                start + concat(p1.take(j)),
                at.push(SegmentView::Key(nm[j].0)),
                old_entry(om, nm[j].0),
                nm[j].1,
                p1[j],
                p2[j],
            );
        } else {
            assert(p1[j] =~= p2[j]);
        }
        assert(p1.take(k) =~= p1.take(j).push(p1[j]));
        assert(p2.take(k) =~= p2.take(j).push(p2[j]));
    }
}

/// The parts of the first `k` items of two selected array diffs agree.
#[verifier::spinoff_prover]
#[verifier::rlimit(100)]
proof fn lemma_array_parts_unique(
    idx: Seq<(Seq<u8>, Seq<SegmentView>)>,
    base: Pools,
    start: Seq<ActionView>,
    at: Seq<SegmentView>,
    oa: Seq<ValueView>,
    na: Seq<ValueView>,
    whole: ValueView,
    p1: Seq<Seq<ActionView>>,
    p2: Seq<Seq<ActionView>>,
    k: int,
)
    requires
        whole == ValueView::Array(na),
        p1.len() == na.len(),
        p2.len() == na.len(),
        0 <= k <= na.len(),
        forall|i: int|
            0 <= i < na.len() ==> array_part_run(idx, base, start, at, oa, na, p1.take(i), i, #[trigger] p1[i]),
        forall|i: int|
            0 <= i < na.len() ==> array_part_run(idx, base, start, at, oa, na, p2.take(i), i, #[trigger] p2[i]),
    ensures
        p1.take(k) == p2.take(k),
    decreases whole, 0nat, k,
{
    if k == 0 {
        assert(p1.take(0) =~= p2.take(0));
    } else {
        let j = k - 1;
        lemma_array_parts_unique(idx, base, start, at, oa, na, whole, p1, p2, j);
        assert(array_part_run(idx, base, start, at, oa, na, p1.take(j), j, p1[j]));
        assert(array_part_run(idx, base, start, at, oa, na, p2.take(j), j, p2[j]));
        if j < oa.len() && view_digest(oa[j]) == view_digest(na[j]) {
            assert(p1[j] =~= p2[j]);
        } else if j < oa.len() && (kind_of(oa[j]) != kind_of(na[j]) || !(na[j] is Mapping
            || na[j] is Array)) {
        } else {
            assert(decreases_to!(whole => whole->Array_0));
            assert(decreases_to!(na => na[j]));
            lemma_run_unique(
                idx,
                base,
                start + concat(p1.take(j)),
                at.push(SegmentView::Index(j as nat)),
                if j < oa.len() {
                    Some(oa[j])
                } else {
                    None
                },
                na[j],
                p1[j],
                p2[j],
            );
        }
        assert(p1.take(k) =~= p1.take(j).push(p1[j]));
        assert(p2.take(k) =~= p2.take(j).push(p2[j]));
    }
}

/// When the selected diff, after `start`, leaves actions each prefix of
/// which packs, the selected diff packs at each of its actions.
pub proof fn lemma_ok_runs_pack(
    idx: Seq<(Seq<u8>, Seq<SegmentView>)>,
    base: Pools,
    start: Seq<ActionView>,
    at: Seq<SegmentView>,
    o: Option<ValueView>,
    n: ValueView,
    acts: Seq<ActionView>,
)
    requires
        diff_run(idx, base, start, at, o, n, acts),
        forall|k: int| 0 <= k <= (start + acts).len() ==> #[trigger] packs_on((start + acts).take(k), base),
    ensures
        runs_pack(idx, base, start, at, o, n),
{
    assert forall|a: Seq<ActionView>| #[trigger] diff_run(idx, base, start, at, o, n, a) implies steps_pack(base, start, a) by {
        lemma_run_unique(idx, base, start, at, o, n, a, acts);
    }
}

/// Whether `parts` are the parts of the first items of a diff of two
/// arrays, as [`diff_ok`] and [`diff_run`] state them.
#[verifier::opaque]
pub open spec fn array_parts_done(
    idx: Seq<(Seq<u8>, Seq<SegmentView>)>,
    base: Pools,
    start: Seq<ActionView>,
    at: Seq<SegmentView>,
    oa: Seq<ValueView>,
    na: Seq<ValueView>,
    parts: Seq<Seq<ActionView>>,
) -> bool {
    &&& parts.len() <= na.len()
    &&& forall|j: int|
        0 <= j < parts.len() ==> array_part_ok(idx, at, oa, na, j, #[trigger] parts[j])
            && array_part_run(idx, base, start, at, oa, na, parts.take(j), j, parts[j])
}

/// No item done yet.
pub proof fn lemma_array_parts_empty(
    idx: Seq<(Seq<u8>, Seq<SegmentView>)>,
    base: Pools,
    start: Seq<ActionView>,
    at: Seq<SegmentView>,
    oa: Seq<ValueView>,
    na: Seq<ValueView>,
)
    ensures
        array_parts_done(idx, base, start, at, oa, na, Seq::empty()),
{
    reveal(array_parts_done);
}

/// One more item done.
pub proof fn lemma_array_parts_push(
    idx: Seq<(Seq<u8>, Seq<SegmentView>)>,
    base: Pools,
    start: Seq<ActionView>,
    at: Seq<SegmentView>,
    oa: Seq<ValueView>,
    na: Seq<ValueView>,
    parts: Seq<Seq<ActionView>>,
    part: Seq<ActionView>,
)
    requires
        array_parts_done(idx, base, start, at, oa, na, parts),
        parts.len() < na.len(),
        array_part_ok(idx, at, oa, na, parts.len() as int, part),
        array_part_run(idx, base, start, at, oa, na, parts, parts.len() as int, part),
    ensures
        array_parts_done(idx, base, start, at, oa, na, parts.push(part)),
        concat(parts.push(part)) == concat(parts) + part,
{
    reveal(array_parts_done);
    let np = parts.push(part);
    assert(np.drop_last() =~= parts);
    assert(np.take(parts.len() as int) =~= parts);
    assert forall|j: int| 0 <= j < np.len() implies array_part_ok(idx, at, oa, na, j, #[trigger] np[j])
        && array_part_run(idx, base, start, at, oa, na, np.take(j), j, np[j]) by {
        if j < parts.len() {
            assert(np[j] == parts[j]);
            assert(np.take(j) =~= parts.take(j));
        }
    }
}

/// The parts of all the items, with the deletions, are the diff.
pub proof fn lemma_array_parts_full(
    idx: Seq<(Seq<u8>, Seq<SegmentView>)>,
    base: Pools,
    start: Seq<ActionView>,
    at: Seq<SegmentView>,
    oa: Seq<ValueView>,
    na: Seq<ValueView>,
    parts: Seq<Seq<ActionView>>,
)
    requires
        array_parts_done(idx, base, start, at, oa, na, parts),
        parts.len() == na.len(),
    ensures
        diff_ok(
            idx,
            at,
            Some(ValueView::Array(oa)),
            ValueView::Array(na),
            concat(parts) + array_deletes(at, oa.len(), na.len()),
        ),
        diff_run(
            idx,
            base,
            start,
            at,
            Some(ValueView::Array(oa)),
            ValueView::Array(na),
            concat(parts) + array_deletes(at, oa.len(), na.len()),
        ),
        diffs_packable(idx, at, Some(ValueView::Array(oa)), ValueView::Array(na), start) ==> packable(
            start + (concat(parts) + array_deletes(at, oa.len(), na.len())),
        ),
        runs_pack(idx, base, start, at, Some(ValueView::Array(oa)), ValueView::Array(na)) ==> steps_pack(
            base,
            start + concat(parts),
            array_deletes(at, oa.len(), na.len()),
        ),
{
    reveal(array_parts_done);
    let acts = concat(parts) + array_deletes(at, oa.len(), na.len());
    assert(diff_ok(idx, at, Some(ValueView::Array(oa)), ValueView::Array(na), acts));
    assert(diff_run(idx, base, start, at, Some(ValueView::Array(oa)), ValueView::Array(na), acts));
    if diffs_packable(idx, at, Some(ValueView::Array(oa)), ValueView::Array(na), start) {
        lemma_array_good(idx, at, oa, na, parts, start);
    }
    if runs_pack(idx, base, start, at, Some(ValueView::Array(oa)), ValueView::Array(na)) {
        lemma_array_run_good(idx, base, start, at, oa, na, parts);
        lemma_steps_pack_shift(base, start, concat(parts), array_deletes(at, oa.len(), na.len()));
    }
}

/// The next item is replaced: the replacement is its part, and packs when
/// the whole diff does.
pub proof fn lemma_array_next_replace(
    idx: Seq<(Seq<u8>, Seq<SegmentView>)>,
    base: Pools,
    start: Seq<ActionView>,
    at: Seq<SegmentView>,
    oa: Seq<ValueView>,
    na: Seq<ValueView>,
    parts: Seq<Seq<ActionView>>,
)
    requires
        array_parts_done(idx, base, start, at, oa, na, parts),
        parts.len() < na.len(),
        parts.len() < oa.len(),
        view_digest(oa[parts.len() as int]) != view_digest(na[parts.len() as int]),
        kind_of(oa[parts.len() as int]) != kind_of(na[parts.len() as int]) || !(
        na[parts.len() as int] is Mapping || na[parts.len() as int] is Array),
    ensures
        ({
            let i = parts.len() as int;
            let r = ActionView::Replace(at.push(SegmentView::Index(i as nat)), na[i]);
            &&& array_part_ok(idx, at, oa, na, i, seq![r])
            &&& array_part_run(idx, base, start, at, oa, na, parts, i, seq![r])
            &&& diffs_packable(idx, at, Some(ValueView::Array(oa)), ValueView::Array(na), start)
                ==> packable((start + concat(parts)).push(r))
            &&& runs_pack(idx, base, start, at, Some(ValueView::Array(oa)), ValueView::Array(na))
                ==> packs_on((start + concat(parts)).push(r), base)
        }),
{
    reveal(array_parts_done);
    let i = parts.len() as int;
    let rp = seq![ActionView::Replace(at.push(SegmentView::Index(i as nat)), na[i])];
    let before = start + concat(parts);
    if diffs_packable(idx, at, Some(ValueView::Array(oa)), ValueView::Array(na), start) {
        lemma_array_step_good(idx, at, oa, na, parts, rp, start);
        assert(start + concat(parts) + rp =~= before.push(rp[0]));
    }
    if runs_pack(idx, base, start, at, Some(ValueView::Array(oa)), ValueView::Array(na)) {
        lemma_array_run_step(idx, base, start, at, oa, na, parts, rp);
        assert(packs_on((before + rp).take(before.len() as int + 1), base));
        assert((before + rp).take(before.len() as int + 1) =~= before.push(rp[0]));
    }
}

/// The next item is diffed by itself: what the whole diff packing asks of
/// its part.
pub proof fn lemma_array_next_sub(
    idx: Seq<(Seq<u8>, Seq<SegmentView>)>,
    base: Pools,
    start: Seq<ActionView>,
    at: Seq<SegmentView>,
    oa: Seq<ValueView>,
    na: Seq<ValueView>,
    parts: Seq<Seq<ActionView>>,
)
    requires
        array_parts_done(idx, base, start, at, oa, na, parts),
        parts.len() < na.len(),
        !(parts.len() < oa.len() && view_digest(oa[parts.len() as int]) == view_digest(
            na[parts.len() as int],
        )),
        !(parts.len() < oa.len() && (kind_of(oa[parts.len() as int]) != kind_of(
            na[parts.len() as int],
        ) || !(na[parts.len() as int] is Mapping || na[parts.len() as int] is Array))),
    ensures
        ({
            let i = parts.len() as int;
            let ov = if i < oa.len() {
                Some(oa[i])
            } else {
                None
            };
            let sub_at = at.push(SegmentView::Index(i as nat));
            let before = start + concat(parts);
            &&& diffs_packable(idx, at, Some(ValueView::Array(oa)), ValueView::Array(na), start)
                ==> diffs_packable(idx, sub_at, ov, na[i], before)
            &&& runs_pack(idx, base, start, at, Some(ValueView::Array(oa)), ValueView::Array(na))
                ==> runs_pack(idx, base, before, sub_at, ov, na[i])
        }),
{
    reveal(array_parts_done);
    let i = parts.len() as int;
    let ov = if i < oa.len() {
        Some(oa[i])
    } else {
        None
    };
    let sub_at = at.push(SegmentView::Index(i as nat));
    let before = start + concat(parts);
    if diffs_packable(idx, at, Some(ValueView::Array(oa)), ValueView::Array(na), start) {
        assert forall|sub: Seq<ActionView>| #[trigger] diff_ok(idx, sub_at, ov, na[i], sub) implies packable(before + sub) by {
            lemma_array_step_good(idx, at, oa, na, parts, sub, start);
        }
    }
    if runs_pack(idx, base, start, at, Some(ValueView::Array(oa)), ValueView::Array(na)) {
        assert forall|sub: Seq<ActionView>| #[trigger] diff_run(idx, base, before, sub_at, ov, na[i], sub) implies steps_pack(base, before, sub) by {
            lemma_array_run_step(idx, base, start, at, oa, na, parts, sub);
        }
    }
}

/// Whether `parts` are the parts of the first entries of a diff of two
/// maps, as [`diff_ok`] and [`diff_run`] state them.
#[verifier::opaque]
pub open spec fn map_parts_done(
    idx: Seq<(Seq<u8>, Seq<SegmentView>)>,
    base: Pools,
    start: Seq<ActionView>,
    at: Seq<SegmentView>,
    om: Seq<(Seq<char>, ValueView)>,
    nm: Seq<(Seq<char>, ValueView)>,
    parts: Seq<Seq<ActionView>>,
) -> bool {
    &&& parts.len() <= nm.len()
    &&& forall|j: int|
        0 <= j < parts.len() ==> map_part_ok(idx, at, om, nm, j, #[trigger] parts[j])
            && map_part_run(idx, base, start, at, om, nm, parts.take(j), j, parts[j])
}

/// No entry done yet.
pub proof fn lemma_map_parts_empty(
    idx: Seq<(Seq<u8>, Seq<SegmentView>)>,
    base: Pools,
    start: Seq<ActionView>,
    at: Seq<SegmentView>,
    om: Seq<(Seq<char>, ValueView)>,
    nm: Seq<(Seq<char>, ValueView)>,
)
    ensures
        map_parts_done(idx, base, start, at, om, nm, Seq::empty()),
{
    reveal(map_parts_done);
}

/// One more entry done.
pub proof fn lemma_map_parts_push(
    idx: Seq<(Seq<u8>, Seq<SegmentView>)>,
    base: Pools,
    start: Seq<ActionView>,
    at: Seq<SegmentView>,
    om: Seq<(Seq<char>, ValueView)>,
    nm: Seq<(Seq<char>, ValueView)>,
    parts: Seq<Seq<ActionView>>,
    part: Seq<ActionView>,
)
    requires
        map_parts_done(idx, base, start, at, om, nm, parts),
        parts.len() < nm.len(),
        map_part_ok(idx, at, om, nm, parts.len() as int, part),
        map_part_run(idx, base, start, at, om, nm, parts, parts.len() as int, part),
    ensures
        map_parts_done(idx, base, start, at, om, nm, parts.push(part)),
        concat(parts.push(part)) == concat(parts) + part,
{
    reveal(map_parts_done);
    let np = parts.push(part);
    assert(np.drop_last() =~= parts);
    assert(np.take(parts.len() as int) =~= parts);
    assert forall|j: int| 0 <= j < np.len() implies map_part_ok(idx, at, om, nm, j, #[trigger] np[j])
        && map_part_run(idx, base, start, at, om, nm, np.take(j), j, np[j]) by {
        if j < parts.len() {
            assert(np[j] == parts[j]);
            assert(np.take(j) =~= parts.take(j));
        }
    }
}

/// The parts of all the entries, with the deletions, are the diff.
pub proof fn lemma_map_parts_full(
    idx: Seq<(Seq<u8>, Seq<SegmentView>)>,
    base: Pools,
    start: Seq<ActionView>,
    at: Seq<SegmentView>,
    om: Seq<(Seq<char>, ValueView)>,
    nm: Seq<(Seq<char>, ValueView)>,
    parts: Seq<Seq<ActionView>>,
)
    requires
        map_parts_done(idx, base, start, at, om, nm, parts),
        parts.len() == nm.len(),
    ensures
        diff_ok(
            idx,
            at,
            Some(ValueView::Mapping(om)),
            ValueView::Mapping(nm),
            concat(parts) + map_deletes(at, om, nm),
        ),
        diff_run(
            idx,
            base,
            start,
            at,
            Some(ValueView::Mapping(om)),
            ValueView::Mapping(nm),
            concat(parts) + map_deletes(at, om, nm),
        ),
        diffs_packable(idx, at, Some(ValueView::Mapping(om)), ValueView::Mapping(nm), start) ==> packable(
            start + (concat(parts) + map_deletes(at, om, nm)),
        ),
        runs_pack(idx, base, start, at, Some(ValueView::Mapping(om)), ValueView::Mapping(nm)) ==> steps_pack(
            base,
            start + concat(parts),
            map_deletes(at, om, nm),
        ),
{
    reveal(map_parts_done);
    let acts = concat(parts) + map_deletes(at, om, nm);
    assert(diff_ok(idx, at, Some(ValueView::Mapping(om)), ValueView::Mapping(nm), acts));
    assert(diff_run(idx, base, start, at, Some(ValueView::Mapping(om)), ValueView::Mapping(nm), acts));
    if diffs_packable(idx, at, Some(ValueView::Mapping(om)), ValueView::Mapping(nm), start) {
        lemma_map_good(idx, at, om, nm, parts, start);
    }
    if runs_pack(idx, base, start, at, Some(ValueView::Mapping(om)), ValueView::Mapping(nm)) {
        lemma_map_run_good(idx, base, start, at, om, nm, parts);
        lemma_steps_pack_shift(base, start, concat(parts), map_deletes(at, om, nm));
    }
}

/// The next entry is diffed by itself: what the whole diff packing asks of
/// its part.
pub proof fn lemma_map_next_sub(
    idx: Seq<(Seq<u8>, Seq<SegmentView>)>,
    base: Pools,
    start: Seq<ActionView>,
    at: Seq<SegmentView>,
    om: Seq<(Seq<char>, ValueView)>,
    nm: Seq<(Seq<char>, ValueView)>,
    parts: Seq<Seq<ActionView>>,
)
    requires
        map_parts_done(idx, base, start, at, om, nm, parts),
        parts.len() < nm.len(),
        !unchanged(old_entry(om, nm[parts.len() as int].0), nm[parts.len() as int].1),
    ensures
        ({
            let i = parts.len() as int;
            let sub_at = at.push(SegmentView::Key(nm[i].0));
            let ov = old_entry(om, nm[i].0);
            let before = start + concat(parts);
            &&& diffs_packable(idx, at, Some(ValueView::Mapping(om)), ValueView::Mapping(nm), start)
                ==> diffs_packable(idx, sub_at, ov, nm[i].1, before)
            &&& runs_pack(idx, base, start, at, Some(ValueView::Mapping(om)), ValueView::Mapping(nm))
                ==> runs_pack(idx, base, before, sub_at, ov, nm[i].1)
        }),
{
    reveal(map_parts_done);
    let i = parts.len() as int;
    let sub_at = at.push(SegmentView::Key(nm[i].0));
    let ov = old_entry(om, nm[i].0);
    let before = start + concat(parts);
    if diffs_packable(idx, at, Some(ValueView::Mapping(om)), ValueView::Mapping(nm), start) {
        assert forall|sub: Seq<ActionView>| #[trigger] diff_ok(idx, sub_at, ov, nm[i].1, sub) implies packable(before + sub) by {
            lemma_map_step_good(idx, at, om, nm, parts, sub, start);
        }
    }
    if runs_pack(idx, base, start, at, Some(ValueView::Mapping(om)), ValueView::Mapping(nm)) {
        assert forall|sub: Seq<ActionView>| #[trigger] diff_run(idx, base, before, sub_at, ov, nm[i].1, sub) implies steps_pack(base, before, sub) by {
            lemma_map_run_step(idx, base, start, at, om, nm, parts, sub);
        }
    }
}

/// Computes diffs against an old document.
pub struct Differ<'d> {
    old: &'d Document,
}

impl<'d> Differ<'d> {
    /// The old document's index.
    pub closed spec fn idx(&self) -> Seq<(Seq<u8>, Seq<SegmentView>)> {
        self.old.index_view()
    }

    /// The old document's value.
    pub closed spec fn old_view(&self) -> ValueView {
        self.old@
    }

    /// A differ against `old`.
    pub fn new(old: &'d Document) -> (d: Self)
        ensures
            d.idx() == old.index_view(),
            d.old_view() == old@,
    {
        Differ { old }
    }

    /// Appends the diff from the old document to `new`, at the root: the
    /// diff that [`diff_run`] selects, each action measured by the exact
    /// length of the message so far. It fails when one of its actions leaves
    /// a message that does not pack.
    pub fn diff(&self, cost: &mut CostSession, txn: &mut ProducerStateTxn, new: &Document) -> (r: Result<()>)
        requires
            old(cost).inv(*old(txn)),
            fits(new@),
        ensures
            final(cost).inv(*final(txn)),
            final(cost).base() == old(cost).base(),
            r matches Err(e) ==> e.spec_kind() == crate::error::ErrorKind::InvalidData,
            r is Ok ==> exists|acts: Seq<ActionView>|
                diff_ok(self.idx(), Seq::empty(), Some(self.old_view()), new@, acts) && diff_run(
                    self.idx(),
                    old(cost).base(),
                    old(cost).acts(),
                    Seq::empty(),
                    Some(self.old_view()),
                    new@,
                    acts,
                ) && #[trigger] (old(cost).acts() + acts) == final(cost).acts(),
            diffs_packable(self.idx(), Seq::empty(), Some(self.old_view()), new@, old(cost).acts())
                ==> r is Ok,
            runs_pack(
                self.idx(),
                old(cost).base(),
                old(cost).acts(),
                Seq::empty(),
                Some(self.old_view()),
                new@,
            ) ==> r is Ok,
            old(cost).prefixes_pack() ==> final(cost).prefixes_pack() && (r is Ok ==> runs_pack(
                self.idx(),
                old(cost).base(),
                old(cost).acts(),
                Seq::empty(),
                Some(self.old_view()),
                new@,
            )),
    {
        self.diff_value(cost, txn, Path::empty(), Some(self.old.value_ref()), new.value_ref())
    }

    /// Selects the action that [`chosen`] gives: the direct action, or the
    /// copy when its message is strictly shorter or the only one that packs.
    fn choose_action(
        &self,
        cost: &mut CostSession,
        txn: &mut ProducerStateTxn,
        direct: Action,
        copy: Option<Action>,
    ) -> (r: Result<()>)
        requires
            old(cost).inv(*old(txn)),
            action_fits(direct@),
            copy matches Some(c) ==> action_fits(c@),
        ensures
            final(cost).inv(*final(txn)),
            final(cost).base() == old(cost).base(),
            r matches Err(e) ==> e.spec_kind() == crate::error::ErrorKind::InvalidData,
            r is Ok ==> final(cost).acts() == old(cost).acts().push(direct@) || (copy matches Some(
                c,
            ) && final(cost).acts() == old(cost).acts().push(c@)),
            packable(old(cost).acts().push(direct@)) && (copy matches Some(c) ==> packable(
                old(cost).acts().push(c@),
            )) ==> r is Ok,
            ({
                let pick = chosen(
                    old(cost).acts(),
                    old(cost).base(),
                    direct@,
                    match copy {
                        Some(c) => Some(c@),
                        None => None,
                    },
                );
                &&& r is Ok <==> packs_on(old(cost).acts().push(pick), old(cost).base())
                &&& r is Ok ==> final(cost).acts() == old(cost).acts().push(pick)
            }),
            old(cost).prefixes_pack() ==> final(cost).prefixes_pack(),
    {
        let copy = match copy {
            None => {
                return cost.append(txn, direct);
            },
            Some(c) => c,
        };
        let direct_cost = cost.encoded_len_with(txn, &direct);
        let copy_cost = cost.encoded_len_with(txn, &copy);
        let use_copy = match (direct_cost, copy_cost) {
            (Ok(direct_len), Ok(copy_len)) => copy_len < direct_len,
            (Ok(_), Err(_)) => false,
            (Err(_), Ok(_)) => true,
            (Err(e), Err(_)) => {
                return Err(e);
            },
        };
        if use_copy {
            cost.append(txn, copy)
        } else {
            cost.append(txn, direct)
        }
    }

    /// Appends the diff at `path` from `old_value` (if any) to `new_value`.
    #[verifier::spinoff_prover]
    #[verifier::rlimit(60)]
    pub fn diff_value(
        &self,
        cost: &mut CostSession,
        txn: &mut ProducerStateTxn,
        path: Path,
        old_value: Option<&Value>,
        new_value: &Value,
    ) -> (r: Result<()>)
        requires
            old(cost).inv(*old(txn)),
            fits(new_value@),
        ensures
            final(cost).inv(*final(txn)),
            final(cost).base() == old(cost).base(),
            r matches Err(e) ==> e.spec_kind() == crate::error::ErrorKind::InvalidData,
            r is Ok ==> exists|acts: Seq<ActionView>|
                diff_ok(
                    self.idx(),
                    path@,
                    match old_value {
                        Some(o) => Some(o@),
                        None => None,
                    },
                    new_value@,
                    acts,
                ) && diff_run(
                    self.idx(),
                    old(cost).base(),
                    old(cost).acts(),
                    path@,
                    match old_value {
                        Some(o) => Some(o@),
                        None => None,
                    },
                    new_value@,
                    acts,
                ) && #[trigger] (old(cost).acts() + acts) == final(cost).acts(),
            diffs_packable(
                self.idx(),
                path@,
                match old_value {
                    Some(o) => Some(o@),
                    None => None,
                },
                new_value@,
                old(cost).acts(),
            ) ==> r is Ok,
            runs_pack(
                self.idx(),
                old(cost).base(),
                old(cost).acts(),
                path@,
                match old_value {
                    Some(o) => Some(o@),
                    None => None,
                },
                new_value@,
            ) ==> r is Ok,
            old(cost).prefixes_pack() ==> final(cost).prefixes_pack() && (r is Ok ==> runs_pack(
                self.idx(),
                old(cost).base(),
                old(cost).acts(),
                path@,
                match old_value {
                    Some(o) => Some(o@),
                    None => None,
                },
                new_value@,
            )),
        decreases new_value@, 1int,
    {
        let ghost ov = match old_value {
            Some(o) => Some(o@),
            None => None::<ValueView>,
        };
        if let Some(old) = old_value {
            match (old.inner(), new_value.inner()) {
                (ValueInner::Mapping { .. }, ValueInner::Mapping { .. }) => {
                    return self.diff_map(cost, txn, path, old, new_value);
                },
                (ValueInner::Array { .. }, ValueInner::Array { .. }) => {
                    return self.diff_array(cost, txn, path, old, new_value);
                },
                _ => {},
            }
        }
        let ghost before = cost.acts();
        let hash = new_value.hash_bytes();
        let found = self.old.lookup(&hash);
        let copy = match found {
            Some(from) => Some(Action::Copy { path: path.duplicate(), from: from.duplicate() }),
            None => None,
        };
        let direct = if path.is_empty() {
            Action::Snapshot { value: new_value.duplicate() }
        } else {
            Action::Add { path, value: new_value.duplicate() }
        };
        let ghost copy_view = if copy is Some {
            Some(copy->Some_0@)
        } else {
            None::<ActionView>
        };
        let ghost pick = chosen(before, cost.base(), direct@, copy_view);
        proof {
            assert(direct@ == direct_action(path@, new_value@));
            assert(copy_view == offered_copy(self.idx(), path@, new_value@));
            if diffs_packable(self.idx(), path@, ov, new_value@, before) {
                let d = direct_action(path@, new_value@);
                assert(leaf_ok(self.idx(), path@, new_value@, seq![d]));
                assert(diff_ok(self.idx(), path@, ov, new_value@, seq![d]));
                assert(before + seq![d] =~= before.push(d));
                if copy is Some {
                    let c = copy->Some_0;
                    assert(leaf_ok(self.idx(), path@, new_value@, seq![c@]));
                    assert(diff_ok(self.idx(), path@, ov, new_value@, seq![c@]));
                    assert(before + seq![c@] =~= before.push(c@));
                }
            }
        }
        proof {
            if runs_pack(self.idx(), cost.base(), before, path@, ov, new_value@) {
                assert(leaf_run(self.idx(), cost.base(), before, path@, new_value@, seq![pick]));
                assert(diff_run(self.idx(), cost.base(), before, path@, ov, new_value@, seq![pick]));
                assert(packs_on((before + seq![pick]).take(before.len() as int + 1), cost.base()));
                assert((before + seq![pick]).take(before.len() as int + 1) =~= before.push(pick));
            }
        }
        let r = self.choose_action(cost, txn, direct, copy);
        proof {
            if r is Ok {
                let a = cost.acts().subrange(before.len() as int, cost.acts().len() as int);
                assert(before + a =~= cost.acts());
                match ov {
                    Some(ValueView::Mapping(_)) => {
                        assert(!(new_value@ is Mapping));
                    },
                    Some(ValueView::Array(_)) => {
                        assert(!(new_value@ is Array));
                    },
                    _ => {},
                }
                assert(leaf_ok(self.idx(), path@, new_value@, a));
                assert(diff_ok(self.idx(), path@, ov, new_value@, a));
                assert(a =~= seq![pick]);
                assert(leaf_run(self.idx(), cost.base(), before, path@, new_value@, a));
                assert(diff_run(self.idx(), cost.base(), before, path@, ov, new_value@, a));
                if old(cost).prefixes_pack() {
                    lemma_ok_runs_pack(self.idx(), cost.base(), before, path@, ov, new_value@, a);
                }
            }
        }
        r
    }

    /// Appends the diff of two arrays at `path`: item by item, then the
    /// deletions of the old items past the new length, from the last one.
    #[verifier::spinoff_prover]
    #[verifier::rlimit(60)]
    fn diff_array(
        &self,
        cost: &mut CostSession,
        txn: &mut ProducerStateTxn,
        path: Path,
        old_value: &Value,
        new_value: &Value,
    ) -> (r: Result<()>)
        requires
            old(cost).inv(*old(txn)),
            fits(new_value@),
            old_value@ is Array,
            new_value@ is Array,
        ensures
            final(cost).inv(*final(txn)),
            final(cost).base() == old(cost).base(),
            r matches Err(e) ==> e.spec_kind() == crate::error::ErrorKind::InvalidData,
            r is Ok ==> exists|acts: Seq<ActionView>|
                diff_ok(self.idx(), path@, Some(old_value@), new_value@, acts) && diff_run(
                    self.idx(),
                    old(cost).base(),
                    old(cost).acts(),
                    path@,
                    Some(old_value@),
                    new_value@,
                    acts,
                ) && #[trigger] (old(cost).acts() + acts) == final(cost).acts(),
            diffs_packable(self.idx(), path@, Some(old_value@), new_value@, old(cost).acts())
                ==> r is Ok,
            runs_pack(self.idx(), old(cost).base(), old(cost).acts(), path@, Some(old_value@), new_value@)
                ==> r is Ok,
            old(cost).prefixes_pack() ==> final(cost).prefixes_pack() && (r is Ok ==> runs_pack(
                self.idx(),
                old(cost).base(),
                old(cost).acts(),
                path@,
                Some(old_value@),
                new_value@,
            )),
        decreases new_value@, 0int,
    {
        let old_array = match old_value.inner() {
            ValueInner::Array { items } => items,
            _ => {
                return Ok(());
            },
        };
        let new_array = match new_value.inner() {
            ValueInner::Array { items } => items,
            _ => {
                return Ok(());
            },
        };
        let ghost oa = items_view(old_array@);
        let ghost na = items_view(new_array@);
        let ghost at = path@;
        let ghost start = cost.acts();
        let ghost base = cost.base();
        let ghost mut parts: Seq<Seq<ActionView>> = Seq::empty();
        let mut index: usize = 0;
        proof {
            lemma_array_parts_empty(self.idx(), base, start, at, oa, na);
            assert(concat(parts) =~= Seq::<ActionView>::empty());
            assert(cost.acts() =~= start + concat(parts));
        }
        while index < new_array.len()
            invariant
                cost.inv(*txn),
                cost.base() == old(cost).base(),
                start == old(cost).acts(),
                old_value@ == ValueView::Array(oa),
                new_value@ == ValueView::Array(na),
                oa == items_view(old_array@),
                na == items_view(new_array@),
                fits(new_value@),
                at == path@,
                index <= new_array@.len(),
                parts.len() == index,
                cost.acts() == start + concat(parts),
                base == old(cost).base(),
                old(cost).prefixes_pack() ==> cost.prefixes_pack(),
                array_parts_done(self.idx(), base, start, at, oa, na, parts),
            decreases new_array@.len() - index,
        {
            let ghost before = cost.acts();
            let new_item = &new_array[index];
            proof {
                assert(na[index as int] == new_item@);
                assert(fits(new_item@));
            }
            let mut same = false;
            if index < old_array.len() {
                proof {
                    assert(oa[index as int] == old_array@[index as int]@);
                }
                same = old_array[index].eq(new_item);
            }
            let ghost part: Seq<ActionView>;
            if same {
                proof {
                    part = Seq::empty();
                    assert(array_part_ok(self.idx(), at, oa, na, index as int, part));
                    assert(array_part_run(self.idx(), base, start, at, oa, na, parts, index as int, part));
                }
            } else {
                let mut item_path = path.duplicate();
                item_path.push_segment(PathSegment::index(index));
                let replace = index < old_array.len() && (old_array[index].kind() != new_item.kind()
                    || !(match new_item.inner() {
                    ValueInner::Mapping { .. } => true,
                    ValueInner::Array { .. } => true,
                    _ => false,
                }));
                if replace {
                    let action = Action::Replace { path: item_path, value: new_item.duplicate() };
                    proof {
                        lemma_array_next_replace(self.idx(), base, start, at, oa, na, parts);
                        assert(action@ == ActionView::Replace(
                            at.push(SegmentView::Index(index as nat)),
                            na[index as int],
                        ));
                    }
                    cost.append(txn, action)?;
                    proof {
                        part = seq![ActionView::Replace(at.push(SegmentView::Index(index as nat)), na[index as int])];
                        assert(cost.acts() =~= before + part);
                    }
                } else {
                    proof {
                        assert(decreases_to!(new_value@ => new_value@->Array_0));
                        assert(decreases_to!(new_value@->Array_0 => new_value@->Array_0[index as int]));
                    }
                    let old_item = if index < old_array.len() {
                        Some(&old_array[index])
                    } else {
                        None
                    };
                    let ghost ov = if index < oa.len() {
                        Some(oa[index as int])
                    } else {
                        None
                    };
                    proof {
                        assert(match old_item {
                            Some(o) => Some(o@),
                            None => None::<ValueView>,
                        } == ov);
                        lemma_array_next_sub(self.idx(), base, start, at, oa, na, parts);
                    }
                    self.diff_value(cost, txn, item_path, old_item, new_item)?;
                    proof {
                        let a = choose|a: Seq<ActionView>|
                            diff_ok(self.idx(), at.push(SegmentView::Index(index as nat)), ov, new_item@, a)
                                && diff_run(
                                self.idx(),
                                base,
                                before,
                                at.push(SegmentView::Index(index as nat)),
                                ov,
                                new_item@,
                                a,
                            ) && #[trigger] (before + a) == cost.acts();
                        part = a;
                        assert(array_part_ok(self.idx(), at, oa, na, index as int, part));
                        assert(array_part_run(self.idx(), base, start, at, oa, na, parts, index as int, part));
                    }
                }
            }
            proof {
                lemma_array_parts_push(self.idx(), base, start, at, oa, na, parts, part);
                assert(cost.acts() =~= start + concat(parts.push(part)));
                parts = parts.push(part);
            }
            index += 1;
        }
        let ghost mid = cost.acts();
        let mut index = old_array.len();
        let ghost mut dels: Seq<ActionView> = Seq::empty();
        proof {
            assert(mid + dels =~= mid);
            lemma_array_parts_full(self.idx(), base, start, at, oa, na, parts);
            assert(start + (concat(parts) + array_deletes(at, oa.len(), na.len())) =~= mid
                + array_deletes(at, oa.len(), na.len()));
        }
        while index > new_array.len()
            invariant
                cost.inv(*txn),
                cost.base() == old(cost).base(),
                index <= old_array@.len(),
                at == path@,
                cost.acts() == mid + dels,
                oa.len() == old_array@.len(),
                na.len() == new_array@.len(),
                start == old(cost).acts(),
                diffs_packable(self.idx(), at, Some(old_value@), new_value@, start) ==> packable(
                    mid + array_deletes(at, oa.len(), na.len()),
                ),
                base == old(cost).base(),
                old(cost).prefixes_pack() ==> cost.prefixes_pack(),
                runs_pack(self.idx(), base, start, at, Some(old_value@), new_value@) ==> steps_pack(
                    base,
                    mid,
                    array_deletes(at, oa.len(), na.len()),
                ),
                dels + array_deletes(at, index as nat, new_array@.len() as nat) == array_deletes(
                    at,
                    old_array@.len() as nat,
                    new_array@.len() as nat,
                ),
            decreases index,
        {
            index -= 1;
            let mut item_path = path.duplicate();
            item_path.push_segment(PathSegment::index(index));
            let ghost d = ActionView::Delete(at.push(SegmentView::Index(index as nat)));
            proof {
                assert(array_deletes(at, (index + 1) as nat, new_array@.len() as nat) == seq![d]
                    + array_deletes(at, index as nat, new_array@.len() as nat));
                if diffs_packable(self.idx(), at, Some(old_value@), new_value@, start) {
                    let whole = mid + array_deletes(at, oa.len(), na.len());
                    let x = mid + dels.push(d);
                    assert(whole =~= x + array_deletes(at, index as nat, new_array@.len() as nat));
                    lemma_packable_take(whole, x.len() as int);
                    assert(whole.take(x.len() as int) =~= x);
                }
                if runs_pack(self.idx(), base, start, at, Some(old_value@), new_value@) {
                    let whole = mid + array_deletes(at, oa.len(), na.len());
                    let x = mid + dels.push(d);
                    assert(whole =~= x + array_deletes(at, index as nat, new_array@.len() as nat));
                    assert(packs_on(whole.take(x.len() as int), base));
                    assert(whole.take(x.len() as int) =~= x);
                }
            }
            cost.append(txn, Action::Delete { path: item_path })?;
            proof {
                assert(array_deletes(at, (index + 1) as nat, new_array@.len() as nat) == seq![d]
                    + array_deletes(at, index as nat, new_array@.len() as nat));
                assert(dels.push(d) + array_deletes(at, index as nat, new_array@.len() as nat)
                    =~= dels + array_deletes(at, (index + 1) as nat, new_array@.len() as nat));
                assert(cost.acts() =~= mid + dels.push(d));
                dels = dels.push(d);
            }
        }
        proof {
            assert(dels + array_deletes(at, index as nat, new_array@.len() as nat) =~= dels);
            let acts = concat(parts) + dels;
            assert(start + acts =~= cost.acts());
            assert(old_value@ == ValueView::Array(oa));
            assert(new_value@ == ValueView::Array(na));
            assert(acts == concat(parts) + array_deletes(at, oa.len(), na.len()));
            assert(diff_ok(self.idx(), at, Some(old_value@), new_value@, acts));
            assert(diff_run(self.idx(), base, start, at, Some(old_value@), new_value@, acts));
            if old(cost).prefixes_pack() {
                lemma_ok_runs_pack(self.idx(), base, start, at, Some(old_value@), new_value@, acts);
            }
        }
        Ok(())
    }

    /// Appends the diff of two maps at `path`: entry by entry in key order,
    /// then the deletions of the old keys missing from the new map.
    #[verifier::spinoff_prover]
    #[verifier::rlimit(60)]
    fn diff_map(
        &self,
        cost: &mut CostSession,
        txn: &mut ProducerStateTxn,
        path: Path,
        old_value: &Value,
        new_value: &Value,
    ) -> (r: Result<()>)
        requires
            old(cost).inv(*old(txn)),
            fits(new_value@),
            old_value@ is Mapping,
            new_value@ is Mapping,
        ensures
            final(cost).inv(*final(txn)),
            final(cost).base() == old(cost).base(),
            r matches Err(e) ==> e.spec_kind() == crate::error::ErrorKind::InvalidData,
            r is Ok ==> exists|acts: Seq<ActionView>|
                diff_ok(self.idx(), path@, Some(old_value@), new_value@, acts) && diff_run(
                    self.idx(),
                    old(cost).base(),
                    old(cost).acts(),
                    path@,
                    Some(old_value@),
                    new_value@,
                    acts,
                ) && #[trigger] (old(cost).acts() + acts) == final(cost).acts(),
            diffs_packable(self.idx(), path@, Some(old_value@), new_value@, old(cost).acts())
                ==> r is Ok,
            runs_pack(self.idx(), old(cost).base(), old(cost).acts(), path@, Some(old_value@), new_value@)
                ==> r is Ok,
            old(cost).prefixes_pack() ==> final(cost).prefixes_pack() && (r is Ok ==> runs_pack(
                self.idx(),
                old(cost).base(),
                old(cost).acts(),
                path@,
                Some(old_value@),
                new_value@,
            )),
        decreases new_value@, 0int,
    {
        let old_map = match old_value.inner() {
            ValueInner::Mapping { entries } => entries,
            _ => {
                return Ok(());
            },
        };
        let new_map = match new_value.inner() {
            ValueInner::Mapping { entries } => entries,
            _ => {
                return Ok(());
            },
        };
        let ghost om = pairs_view(old_map@);
        let ghost nm = pairs_view(new_map@);
        let ghost at = path@;
        let ghost start = cost.acts();
        let ghost base = cost.base();
        let ghost mut parts: Seq<Seq<ActionView>> = Seq::empty();
        let mut i: usize = 0;
        proof {
            lemma_map_parts_empty(self.idx(), base, start, at, om, nm);
            assert(concat(parts) =~= Seq::<ActionView>::empty());
            assert(cost.acts() =~= start + concat(parts));
        }
        while i < new_map.len()
            invariant
                cost.inv(*txn),
                cost.base() == old(cost).base(),
                start == old(cost).acts(),
                old_value@ == ValueView::Mapping(om),
                new_value@ == ValueView::Mapping(nm),
                om == pairs_view(old_map@),
                nm == pairs_view(new_map@),
                crate::value::keys_ascending(om),
                fits(new_value@),
                at == path@,
                i <= new_map@.len(),
                parts.len() == i,
                cost.acts() == start + concat(parts),
                base == old(cost).base(),
                old(cost).prefixes_pack() ==> cost.prefixes_pack(),
                map_parts_done(self.idx(), base, start, at, om, nm, parts),
            decreases new_map@.len() - i,
        {
            let ghost before = cost.acts();
            let key = &new_map[i].0;
            let new_item = &new_map[i].1;
            proof {
                assert(nm[i as int] == (key@, new_item@));
                assert(crate::value::key_bytes(nm[i as int].0).len() < 0x4000_0000_0000_0000);
                assert(fits(new_item@));
            }
            let found = crate::consumer::applier::find_key(old_map.as_slice(), key);
            let old_item = match found {
                Some(j) => {
                    proof {
                        assert(om[j as int].1 == old_map@[j as int].1@);
                    }
                    Some(&old_map[j].1)
                },
                None => None,
            };
            let ghost ov = old_entry(om, key@);
            proof {
                assert(match old_item {
                    Some(o) => Some(o@),
                    None => None::<ValueView>,
                } == ov);
            }
            let same = match old_item {
                Some(o) => o.eq(new_item),
                None => false,
            };
            let ghost part: Seq<ActionView>;
            if same {
                proof {
                    part = Seq::empty();
                    assert(map_part_ok(self.idx(), at, om, nm, i as int, part));
                    assert(map_part_run(self.idx(), base, start, at, om, nm, parts, i as int, part));
                }
            } else {
                let mut item_path = path.duplicate();
                item_path.push_segment(PathSegment::key(key.clone()));
                proof {
                    assert(decreases_to!(new_value@ => new_value@->Mapping_0));
                    assert(decreases_to!(new_value@->Mapping_0 => new_value@->Mapping_0[i as int]));
                    assert(decreases_to!(new_value@->Mapping_0[i as int] => new_value@->Mapping_0[i as int].1));
                    lemma_map_next_sub(self.idx(), base, start, at, om, nm, parts);
                }
                self.diff_value(cost, txn, item_path, old_item, new_item)?;
                proof {
                    let a = choose|a: Seq<ActionView>|
                        diff_ok(self.idx(), at.push(SegmentView::Key(key@)), ov, new_item@, a)
                            && diff_run(
                            self.idx(),
                            base,
                            before,
                            at.push(SegmentView::Key(key@)),
                            ov,
                            new_item@,
                            a,
                        ) && #[trigger] (before + a) == cost.acts();
                    part = a;
                    assert(map_part_ok(self.idx(), at, om, nm, i as int, part));
                    assert(map_part_run(self.idx(), base, start, at, om, nm, parts, i as int, part));
                }
            }
            proof {
                lemma_map_parts_push(self.idx(), base, start, at, om, nm, parts, part);
                assert(cost.acts() =~= start + concat(parts.push(part)));
                parts = parts.push(part);
            }
            i += 1;
        }
        let ghost mid = cost.acts();
        let mut j: usize = 0;
        proof {
            assert(om.take(0) =~= Seq::<(Seq<char>, ValueView)>::empty());
            assert(mid + map_deletes(at, om.take(0), nm) =~= mid);
            lemma_map_parts_full(self.idx(), base, start, at, om, nm, parts);
            assert(start + (concat(parts) + map_deletes(at, om, nm)) =~= mid + map_deletes(at, om, nm));
        }
        while j < old_map.len()
            invariant
                cost.inv(*txn),
                cost.base() == old(cost).base(),
                om == pairs_view(old_map@),
                nm == pairs_view(new_map@),
                crate::value::keys_ascending(nm),
                at == path@,
                j <= old_map@.len(),
                cost.acts() == mid + map_deletes(at, om.take(j as int), nm),
                start == old(cost).acts(),
                diffs_packable(self.idx(), at, Some(old_value@), new_value@, start) ==> packable(
                    mid + map_deletes(at, om, nm),
                ),
                base == old(cost).base(),
                old(cost).prefixes_pack() ==> cost.prefixes_pack(),
                runs_pack(self.idx(), base, start, at, Some(old_value@), new_value@) ==> steps_pack(
                    base,
                    mid,
                    map_deletes(at, om, nm),
                ),
            decreases old_map@.len() - j,
        {
            let key = &old_map[j].0;
            let found = crate::consumer::applier::find_key(new_map.as_slice(), key);
            proof {
                let t = om.take(j + 1);
                assert(t.drop_last() =~= om.take(j as int));
                assert(t.last() == om[j as int]);
                assert(om[j as int].0 == key@);
            }
            if found.is_none() {
                let mut item_path = path.duplicate();
                item_path.push_segment(PathSegment::key(key.clone()));
                proof {
                    let t = om.take(j + 1);
                    assert(map_deletes(at, t, nm) == map_deletes(at, om.take(j as int), nm)
                        + seq![ActionView::Delete(at.push(SegmentView::Key(key@)))]);
                    if diffs_packable(self.idx(), at, Some(old_value@), new_value@, start) {
                        lemma_map_deletes_prefix(at, om, nm, j + 1);
                        let whole = mid + map_deletes(at, om, nm);
                        let x = mid + map_deletes(at, t, nm);
                        lemma_packable_take(whole, x.len() as int);
                        assert(whole.take(x.len() as int) =~= x);
                        assert(x =~= cost.acts().push(ActionView::Delete(at.push(SegmentView::Key(key@)))));
                    }
                    if runs_pack(self.idx(), base, start, at, Some(old_value@), new_value@) {
                        lemma_map_deletes_prefix(at, om, nm, j + 1);
                        let whole = mid + map_deletes(at, om, nm);
                        let x = mid + map_deletes(at, t, nm);
                        assert(packs_on(whole.take(x.len() as int), base));
                        assert(whole.take(x.len() as int) =~= x);
                        assert(x =~= cost.acts().push(ActionView::Delete(at.push(SegmentView::Key(key@)))));
                    }
                }
                cost.append(txn, Action::Delete { path: item_path })?;
            }
            j += 1;
        }
        proof {
            assert(om.take(j as int) =~= om);
            let acts = concat(parts) + map_deletes(at, om, nm);
            assert(start + acts =~= cost.acts());
            assert(old_value@ == ValueView::Mapping(om));
            assert(new_value@ == ValueView::Mapping(nm));
            assert(diff_ok(self.idx(), at, Some(old_value@), new_value@, acts));
            assert(diff_run(self.idx(), base, start, at, Some(old_value@), new_value@, acts));
            if old(cost).prefixes_pack() {
                lemma_ok_runs_pack(self.idx(), base, start, at, Some(old_value@), new_value@, acts);
            }
        }
        Ok(())
    }
}

} // verus!
