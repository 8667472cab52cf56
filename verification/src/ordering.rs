//! Putting the messages read from several images back into image order.
use vstd::prelude::*;

verus! {

/// A message read from one image, with the position (`arrival`) of that
/// image in the order the images were handed out for reading.
#[allow(non_camel_case_types)]
pub struct ordering_decode_message {
    pub arrival: u32,
    pub message: String,
}

/// Whether a message carries the arrival number `a`.
pub open spec fn has_arrival(a: u32) -> spec_fn(ordering_decode_message) -> bool {
    |m: ordering_decode_message| m.arrival == a
}

/// The messages are in non-decreasing order of arrival numbers.
pub open spec fn sorted_by_arrival(s: Seq<ordering_decode_message>) -> bool {
    forall|i: int, j: int| 0 <= i <= j < s.len() ==> #[trigger] s[i].arrival <= #[trigger] s[j].arrival
}

proof fn lemma_filter_of_larger_is_empty(s: Seq<ordering_decode_message>, a: u32)
    requires
        forall|i: int| 0 <= i < s.len() ==> #[trigger] s[i].arrival > a,
    ensures
        s.filter(has_arrival(a)) =~= Seq::<ordering_decode_message>::empty(),
{
    assert(s.all(|x: ordering_decode_message| !has_arrival(a)(x)));
    s.lemma_all_neg_filter_empty(has_arrival(a));
}

/// Orders received messages by arrival number. The order is stable: messages
/// with the same arrival number keep the order in which they were received.
pub fn arrange_messages(received: Vec<ordering_decode_message>) -> (arranged: Vec<
    ordering_decode_message,
>)
    ensures
        arranged@.len() == received@.len(),
        sorted_by_arrival(arranged@),
        forall|a: u32| #[trigger]
            arranged@.filter(has_arrival(a)) == received@.filter(has_arrival(a)),
{
    let ghost orig = received@;
    let mut pending = received;
    let mut arranged: Vec<ordering_decode_message> = Vec::new();
    let ghost mut taken: int = 0;
    while pending.len() > 0
        invariant
            0 <= taken <= orig.len(),
            pending@ == orig.skip(taken),
            arranged@.len() == taken,
            sorted_by_arrival(arranged@),
            forall|a: u32| #[trigger]
                arranged@.filter(has_arrival(a)) == orig.take(taken).filter(has_arrival(a)),
        decreases pending@.len(),
    {
        let item = pending.remove(0);
        let mut p: usize = 0;
        while p < arranged.len() && arranged[p].arrival <= item.arrival
            invariant
                p <= arranged@.len(),
                forall|i: int| 0 <= i < p ==> #[trigger] arranged@[i].arrival <= item.arrival,
            decreases arranged@.len() - p,
        {
            p += 1;
        }
        let ghost old_arranged = arranged@;
        proof {
            assert forall|i: int| p <= i < old_arranged.len() implies #[trigger] old_arranged[i].arrival
                > item.arrival by {
                assert(old_arranged[p as int].arrival > item.arrival);
                assert(old_arranged[p as int].arrival <= old_arranged[i].arrival);
            }
        }
        arranged.insert(p, item);
        proof {
            let head = old_arranged.take(p as int);
            let tail = old_arranged.skip(p as int);
            assert(old_arranged =~= head + tail);
            assert(arranged@ =~= head + seq![item] + tail);
            assert(orig.take(taken + 1) =~= orig.take(taken).push(item));
            assert forall|a: u32| #[trigger]
                arranged@.filter(has_arrival(a)) == orig.take(taken + 1).filter(has_arrival(a)) by {
                let pred = has_arrival(a);
                Seq::filter_distributes_over_add(head, tail, pred);
                Seq::filter_distributes_over_add(head + seq![item], tail, pred);
                Seq::filter_distributes_over_add(head, seq![item], pred);
                orig.take(taken).lemma_filter_push(item, pred);
                head.lemma_filter_push(item, pred);
                assert(head + seq![item] =~= head.push(item));
                if item.arrival == a {
                    assert forall|i: int| 0 <= i < tail.len() implies #[trigger] tail[i].arrival > a by {
                        assert(tail[i] == old_arranged[p + i]);
                    }
                    lemma_filter_of_larger_is_empty(tail, a);
                    assert(head.filter(pred) + Seq::<ordering_decode_message>::empty() =~= head.filter(
                        pred,
                    ));
                    assert(head.push(item).filter(pred) + Seq::<ordering_decode_message>::empty()
                        =~= head.push(item).filter(pred));
                } else {
                }
            }
            assert forall|i: int, j: int| 0 <= i <= j < arranged@.len() implies #[trigger]
                arranged@[i].arrival <= #[trigger] arranged@[j].arrival by {
                if i < p && j < p {
                    assert(arranged@[i] == old_arranged[i] && arranged@[j] == old_arranged[j]);
                } else if i < p && j == p {
                    assert(arranged@[i] == old_arranged[i]);
                } else if i < p {
                    assert(arranged@[i] == old_arranged[i] && arranged@[j] == old_arranged[j - 1]);
                } else if i == p && j > p {
                    assert(arranged@[j] == old_arranged[j - 1]);
                } else if i > p {
                    assert(arranged@[i] == old_arranged[i - 1] && arranged@[j] == old_arranged[j - 1]);
                }
            }
            assert(pending@ =~= orig.skip(taken + 1));
            taken = taken + 1;
        }
    }
    assert(orig.take(taken) =~= orig);
    arranged
}

} // verus!
