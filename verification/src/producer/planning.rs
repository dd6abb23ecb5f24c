//! The actions planned between the last emitted document and the current
//! one.

use vstd::prelude::*;

use crate::document::{index_of, Document};
use crate::error::Result;
use crate::message::packed::decoder::actions_view;
use crate::message::packed::encoder::values_fit;
use crate::message::packed::format::fits;
use crate::patch::{Action, ActionView, Path};
use crate::producer::cost::CostSession;
use crate::message::packed::encoder::packable;
use crate::producer::differ::{diff_ok, diff_run, runs_pack, steps_pack, Differ, Pools};
use crate::state::producer_state::ProducerStateTxn;
use crate::value::ValueView;

verus! {

/// Whether `acts` are a plan from the document `old` (if any) to `new`: a
/// snapshot of `new` when there is no old document, else the diff at the
/// root against the old document's index.
pub open spec fn planned(old: Option<ValueView>, new: ValueView, acts: Seq<ActionView>) -> bool {
    match old {
        None => acts == seq![ActionView::Snapshot(new)],
        Some(o) => diff_ok(index_of(o, Seq::empty()), Seq::empty(), Some(o), new, acts),
    }
}

/// Whether `acts` are the plan that the producer selects from the document
/// `old` (if any) to `new` against the pools `base`: a snapshot of `new`
/// when there is no old document, else the diff at the root that the
/// differ selects against the old document's index.
pub open spec fn planned_by_cost(
    old: Option<ValueView>,
    new: ValueView,
    base: Pools,
    acts: Seq<ActionView>,
) -> bool {
    match old {
        None => acts == seq![ActionView::Snapshot(new)],
        Some(o) => diff_run(
            index_of(o, Seq::empty()),
            base,
            Seq::empty(),
            Seq::empty(),
            Some(o),
            new,
            acts,
        ),
    }
}

/// Whether the plan that the producer selects from the document `old` (if
/// any) to `new` against the pools `base` packs at each of its actions.
pub open spec fn plan_packs(old: Option<ValueView>, new: ValueView, base: Pools) -> bool {
    forall|acts: Seq<ActionView>|
        #[trigger] planned_by_cost(old, new, base, acts) ==> steps_pack(base, Seq::empty(), acts)
}

/// Whether every plan from the document `old` (if any) to `new` packs into
/// a message whatever the pools hold.
pub open spec fn plans_packable(old: Option<ValueView>, new: ValueView) -> bool {
    forall|acts: Seq<ActionView>| #[trigger] planned(old, new, acts) ==> packable(acts)
}

/// Plans the actions from `old` (if any) to `new`, each selected only when
/// the actions so far can be encoded against the pools; the pools are left
/// as they were.
pub fn plan(previous: Option<&Document>, new: &Document, txn: &mut ProducerStateTxn) -> (r: Result<
    Vec<Action>,
>)
    requires
        old(txn).wf(),
        fits(new@),
    ensures
        final(txn).wf(),
        final(txn).strings() == old(txn).strings(),
        final(txn).paths() == old(txn).paths(),
        final(txn).string_recency() == old(txn).string_recency(),
        final(txn).path_recency() == old(txn).path_recency(),
        match r {
            Ok(acts) => planned(
                match previous {
                    Some(d) => Some(d@),
                    None => None,
                },
                new@,
                actions_view(acts@),
            ) && values_fit(actions_view(acts@)) && planned_by_cost(
                match previous {
                    Some(d) => Some(d@),
                    None => None,
                },
                new@,
                (old(txn).strings(), old(txn).paths(), old(txn).string_recency(), old(txn).path_recency()),
                actions_view(acts@),
            ),
            Err(e) => e.spec_kind() == crate::error::ErrorKind::InvalidData,
        },
        previous is None ==> r is Ok,
        plans_packable(
            match previous {
                Some(d) => Some(d@),
                None => None,
            },
            new@,
        ) ==> r is Ok,
        r is Ok <==> plan_packs(
            match previous {
                Some(d) => Some(d@),
                None => None,
            },
            new@,
            (old(txn).strings(), old(txn).paths(), old(txn).string_recency(), old(txn).path_recency()),
        ),
{
    let mut cost = CostSession::new(txn);
    let ghost base = cost.base();
    match previous {
        Some(prev) => {
            proof {
                use_type_invariant(prev);
                prev.lemma_index();
            }
            let differ = Differ::new(prev);
            proof {
                if plan_packs(Some(prev@), new@, base) {
                    assert forall|a: Seq<ActionView>|
                        #[trigger] diff_run(prev.index_view(), base, cost.acts(), Seq::empty(), Some(prev@), new@, a)
                        implies steps_pack(base, cost.acts(), a) by {
                        assert(cost.acts() == Seq::<ActionView>::empty());
                        assert(planned_by_cost(Some(prev@), new@, base, a));
                    }
                    assert(runs_pack(prev.index_view(), base, cost.acts(), Seq::empty(), Some(prev@), new@));
                }
                if plans_packable(Some(prev@), new@) {
                    assert forall|a: Seq<ActionView>|
                        #[trigger] diff_ok(prev.index_view(), Seq::empty(), Some(prev@), new@, a)
                        implies packable(cost.acts() + a) by {
                        assert(planned(Some(prev@), new@, a));
                        assert(cost.acts() + a =~= a);
                    }
                }
            }
            let r = differ.diff_value(&mut cost, txn, Path::empty(), Some(prev.value_ref()), new.value_ref());
            match r {
                Ok(()) => {
                    proof {
                        assert(runs_pack(prev.index_view(), base, Seq::empty(), Seq::empty(), Some(prev@), new@));
                        assert forall|a: Seq<ActionView>|
                            #[trigger] planned_by_cost(Some(prev@), new@, base, a) implies steps_pack(
                            base,
                            Seq::empty(),
                            a,
                        ) by {
                            assert(diff_run(prev.index_view(), base, Seq::empty(), Seq::empty(), Some(prev@), new@, a));
                        }
                        let a = choose|a: Seq<ActionView>|
                            diff_ok(prev.index_view(), Seq::empty(), Some(prev@), new@, a) && diff_run(
                                prev.index_view(),
                                base,
                                Seq::empty(),
                                Seq::empty(),
                                Some(prev@),
                                new@,
                                a,
                            ) && #[trigger] (Seq::<ActionView>::empty() + a) == cost.acts();
                        assert(Seq::<ActionView>::empty() + a =~= a);
                    }
                    proof {
                        cost.lemma_inv(*txn);
                    }
                    Ok(cost.into_actions())
                },
                Err(e) => {
                    proof {
                        cost.lemma_inv(*txn);
                    }
                    Err(e)
                },
            }
        },
        None => {
            let action = Action::Snapshot { value: new.value() };
            proof {
                assert(Seq::<ActionView>::empty().push(action@) =~= seq![action@]);
            }
            match cost.append(txn, action) {
                Ok(()) => {
                    proof {
                        assert(cost.acts() =~= seq![ActionView::Snapshot(new@)]);
                        assert forall|a: Seq<ActionView>|
                            #[trigger] planned_by_cost(None, new@, base, a) implies steps_pack(
                            base,
                            Seq::empty(),
                            a,
                        ) by {
                            assert((Seq::<ActionView>::empty() + a).take(1) =~= cost.acts());
                        }
                        cost.lemma_inv(*txn);
                    }
                    Ok(cost.into_actions())
                },
                Err(e) => {
                    proof {
                        cost.lemma_inv(*txn);
                    }
                    Err(e)
                },
            }
        },
    }
}

} // verus!
