//! Extending the candidate file with words discovered in the caches.
//!
//! Every word found in a relationship cache that the candidate list does not
//! already hold is appended once, in first-seen order; empty words are
//! skipped.

use vstd::prelude::*;

verus! {

use crate::words_getter::seq_contains_str;

/// The options of one extend command.
pub struct Extend {
    pub source_file: String,
}

/// One extension step: keep a non-empty word that neither the candidate list
/// nor the words already kept hold.
pub open spec fn extend_step(acc: Seq<String>, existing: Seq<String>, w: String) -> Seq<String> {
    if w@.len() > 0 && !seq_contains_str(existing, w@) && !seq_contains_str(acc, w@) {
        acc.push(w)
    } else {
        acc
    }
}

/// One cache's word list folded onto the words kept so far.
pub open spec fn extend_fold(acc: Seq<String>, existing: Seq<String>, ws: Seq<String>) -> Seq<
    String,
>
    decreases ws.len(),
{
    if ws.len() == 0 {
        acc
    } else {
        extend_fold(extend_step(acc, existing, ws[0]), existing, ws.drop_first())
    }
}

/// A sequence of cache word lists folded in order.
pub open spec fn extend_fold_lists(
    acc: Seq<String>,
    existing: Seq<String>,
    lists: Seq<Vec<String>>,
) -> Seq<String>
    decreases lists.len(),
{
    if lists.len() == 0 {
        acc
    } else {
        extend_fold_lists(extend_fold(acc, existing, lists[0]@), existing, lists.drop_first())
    }
}

proof fn lemma_extend_fold_push(acc: Seq<String>, existing: Seq<String>, ws: Seq<String>, w: String)
    ensures
        extend_fold(acc, existing, ws.push(w)) == extend_step(
            extend_fold(acc, existing, ws),
            existing,
            w,
        ),
    decreases ws.len(),
{
    if ws.len() == 0 {
        assert(ws.push(w).drop_first() =~= ws);
        assert(ws.push(w)[0] == w);
        assert(extend_fold(acc, existing, ws.push(w)) == extend_fold(
            extend_step(acc, existing, w),
            existing,
            ws,
        ));
        assert(extend_fold(extend_step(acc, existing, w), existing, ws) == extend_step(
            acc,
            existing,
            w,
        ));
        assert(extend_fold(acc, existing, ws) == acc);
    } else {
        assert(ws.push(w)[0] == ws[0]);
        assert(ws.push(w).drop_first() =~= ws.drop_first().push(w));
        assert(extend_fold(acc, existing, ws.push(w)) == extend_fold(
            extend_step(acc, existing, ws[0]),
            existing,
            ws.drop_first().push(w),
        ));
        lemma_extend_fold_push(extend_step(acc, existing, ws[0]), existing, ws.drop_first(), w);
        assert(extend_fold(acc, existing, ws) == extend_fold(
            extend_step(acc, existing, ws[0]),
            existing,
            ws.drop_first(),
        ));
    }
}

proof fn lemma_extend_fold_lists_push(
    acc: Seq<String>,
    existing: Seq<String>,
    lists: Seq<Vec<String>>,
    l: Vec<String>,
)
    ensures
        extend_fold_lists(acc, existing, lists.push(l)) == extend_fold(
            extend_fold_lists(acc, existing, lists),
            existing,
            l@,
        ),
    decreases lists.len(),
{
    if lists.len() == 0 {
        assert(lists.push(l).drop_first() =~= lists);
        assert(lists.push(l)[0] == l);
        assert(extend_fold_lists(acc, existing, lists.push(l)) == extend_fold_lists(
            extend_fold(acc, existing, l@),
            existing,
            lists,
        ));
        assert(extend_fold_lists(extend_fold(acc, existing, l@), existing, lists) == extend_fold(
            acc,
            existing,
            l@,
        ));
        assert(extend_fold_lists(acc, existing, lists) == acc);
    } else {
        assert(lists.push(l)[0] == lists[0]);
        assert(lists.push(l).drop_first() =~= lists.drop_first().push(l));
        assert(extend_fold_lists(acc, existing, lists.push(l)) == extend_fold_lists(
            extend_fold(acc, existing, lists[0]@),
            existing,
            lists.drop_first().push(l),
        ));
        lemma_extend_fold_lists_push(
            extend_fold(acc, existing, lists[0]@),
            existing,
            lists.drop_first(),
            l,
        );
        assert(extend_fold_lists(acc, existing, lists) == extend_fold_lists(
            extend_fold(acc, existing, lists[0]@),
            existing,
            lists.drop_first(),
        ));
    }
}

/// Whatever is folded in, a word already in the candidate list is never
/// kept, a kept word is never empty, and no word is kept twice.
pub proof fn lemma_extend_fold_lists_props(
    acc: Seq<String>,
    existing: Seq<String>,
    lists: Seq<Vec<String>>,
)
    requires
        forall|i: int, j: int| 0 <= i < j < acc.len() ==> acc[i]@ != acc[j]@,
        forall|i: int|
            0 <= i < acc.len() ==> (#[trigger] acc[i])@.len() > 0 && !seq_contains_str(
                existing,
                acc[i]@,
            ),
    ensures
        ({
            let r = extend_fold_lists(acc, existing, lists);
            &&& forall|i: int, j: int| 0 <= i < j < r.len() ==> r[i]@ != r[j]@
            &&& forall|i: int|
                0 <= i < r.len() ==> (#[trigger] r[i])@.len() > 0 && !seq_contains_str(
                    existing,
                    r[i]@,
                )
        }),
    decreases lists.len(),
{
    if lists.len() > 0 {
        lemma_extend_fold_props(acc, existing, lists[0]@);
        lemma_extend_fold_lists_props(
            extend_fold(acc, existing, lists[0]@),
            existing,
            lists.drop_first(),
        );
        assert(extend_fold_lists(acc, existing, lists) == extend_fold_lists(
            extend_fold(acc, existing, lists[0]@),
            existing,
            lists.drop_first(),
        ));
    }
}

proof fn lemma_extend_fold_props(acc: Seq<String>, existing: Seq<String>, ws: Seq<String>)
    requires
        forall|i: int, j: int| 0 <= i < j < acc.len() ==> acc[i]@ != acc[j]@,
        forall|i: int|
            0 <= i < acc.len() ==> (#[trigger] acc[i])@.len() > 0 && !seq_contains_str(
                existing,
                acc[i]@,
            ),
    ensures
        ({
            let r = extend_fold(acc, existing, ws);
            &&& forall|i: int, j: int| 0 <= i < j < r.len() ==> r[i]@ != r[j]@
            &&& forall|i: int|
                0 <= i < r.len() ==> (#[trigger] r[i])@.len() > 0 && !seq_contains_str(
                    existing,
                    r[i]@,
                )
        }),
    decreases ws.len(),
{
    if ws.len() > 0 {
        let acc2 = extend_step(acc, existing, ws[0]);
        assert forall|i: int| 0 <= i < acc2.len() implies (#[trigger] acc2[i])@.len() > 0
            && !seq_contains_str(existing, acc2[i]@) by {
            if i < acc.len() {
                assert(acc2[i] == acc[i]);
            } else {
                assert(acc2[i] == ws[0]);
            }
        }
        assert forall|i: int, j: int| 0 <= i < j < acc2.len() implies acc2[i]@ != acc2[j]@ by {
            if j < acc.len() {
            } else if acc2.len() > acc.len() {
                assert(acc2[j] == ws[0]);
                assert(acc2[i] == acc[i]);
            }
        }
        lemma_extend_fold_props(acc2, existing, ws.drop_first());
        assert(extend_fold(acc, existing, ws) == extend_fold(acc2, existing, ws.drop_first()));
    }
}

impl Extend {
    pub fn new(source_file: String) -> (r: Self)
        ensures
            r.source_file == source_file,
    {
        Self { source_file }
    }

    /// The words the candidate file gains: every word of the given cache
    /// word lists that is non-empty, not already a candidate and not already
    /// gained, once each, in first-seen order.
    pub fn extend_file(&self, existing: &Vec<String>, cache_lists: &Vec<Vec<String>>) -> (r: Vec<
        String,
    >)
        ensures
            r@ == extend_fold_lists(Seq::<String>::empty(), existing@, cache_lists@),
    {
        let mut out: Vec<String> = Vec::new();
        let mut li: usize = 0;
        while li < cache_lists.len()
            invariant
                li <= cache_lists@.len(),
                out@ == extend_fold_lists(
                    Seq::<String>::empty(),
                    existing@,
                    cache_lists@.take(li as int),
                ),
            decreases cache_lists@.len() - li,
        {
            let list = &cache_lists[li];
            let mut wi: usize = 0;
            while wi < list.len()
                invariant
                    wi <= list@.len(),
                    li < cache_lists@.len(),
                    list@ == cache_lists@[li as int]@,
                    out@ == extend_fold(
                        extend_fold_lists(
                            Seq::<String>::empty(),
                            existing@,
                            cache_lists@.take(li as int),
                        ),
                        existing@,
                        list@.take(wi as int),
                    ),
                decreases list@.len() - wi,
            {
                proof {
                    assert(list@.take(wi + 1) =~= list@.take(wi as int).push(list@[wi as int]));
                    lemma_extend_fold_push(
                        extend_fold_lists(
                            Seq::<String>::empty(),
                            existing@,
                            cache_lists@.take(li as int),
                        ),
                        existing@,
                        list@.take(wi as int),
                        list@[wi as int],
                    );
                }
                let w = &list[wi];
                if !w.as_str().is_empty() && !crate::words_getter::list_contains(existing, w)
                    && !crate::words_getter::list_contains(&out, w) {
                    out.push(w.clone());
                }
                wi += 1;
            }
            proof {
                assert(list@.take(list@.len() as int) =~= list@);
                assert(cache_lists@.take(li + 1) =~= cache_lists@.take(li as int).push(
                    cache_lists@[li as int],
                ));
                lemma_extend_fold_lists_push(
                    Seq::<String>::empty(),
                    existing@,
                    cache_lists@.take(li as int),
                    cache_lists@[li as int],
                );
            }
            li += 1;
        }
        proof {
            assert(cache_lists@.take(cache_lists@.len() as int) =~= cache_lists@);
        }
        out
    }
}

} // verus!
