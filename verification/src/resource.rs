use vstd::prelude::*;

use crate::message::{reps_model, spliced, Message};
use crate::plural::{message_index, plural_index};

verus! {

/// An ordered, non-empty list of plural variants for one message path.
/// A non-pluralized message is the special case of a single variant.
pub struct MessageSet {
    messages: Vec<Message>,
}

impl MessageSet {
    /// The variants, in order.
    pub closed spec fn msgs(self) -> Seq<Message> {
        self.messages@
    }

    /// The texts and placeholder spans of all variants.
    pub open spec fn model(self) -> Seq<(Seq<char>, Seq<(int, int, int)>)> {
        self.msgs().map_values(|m: Message| (m.text_view(), m.spans_view()))
    }

    /// At least one variant, each with well-formed spans.
    pub open spec fn wf(self) -> bool {
        &&& self.msgs().len() >= 1
        &&& forall|j: int| 0 <= j < self.msgs().len() ==> (#[trigger] self.msgs()[j]).wf()
    }

    /// A message set over the given variants.
    pub fn new(messages: Vec<Message>) -> (r: MessageSet)
        requires
            messages@.len() >= 1,
        ensures
            r.msgs() == messages@,
    {
        MessageSet { messages }
    }

    /// The number of variants.
    pub fn len(&self) -> (n: usize)
        ensures
            n == self.msgs().len(),
    {
        self.messages.len()
    }

    /// The text of the first variant, unsubstituted.
    pub fn get(&self) -> (r: &str)
        requires
            self.wf(),
        ensures
            r@ == self.msgs()[0].text_view(),
    {
        self.messages[0].text()
    }

    /// The first variant with every placeholder substituted from `reps`.
    pub fn replace(&self, reps: &Vec<&str>) -> (out: String)
        requires
            self.wf(),
            self.msgs()[0].indices_below(reps@.len() as int),
        ensures
            out@ == spliced(
                self.msgs()[0].text_view(),
                self.msgs()[0].spans_view(),
                reps_model(reps@),
            ),
    {
        self.messages[0].substitute(reps)
    }

    /// The variant that answers the count `num`.
    pub fn plural(&self, num: usize) -> (m: &Message)
        requires
            self.wf(),
        ensures
            *m == self.msgs()[plural_index(self.msgs().len() as int, num as int)],
            m.wf(),
    {
        let i = message_index(&self.messages.len(), &num);
        &self.messages[i]
    }

    /// A copy of the set whose variants have the same texts and spans.
    pub fn duplicate(&self) -> (r: MessageSet)
        ensures
            r.model() == self.model(),
            r.msgs().len() == self.msgs().len(),
            self.wf() ==> r.wf(),
    {
        let mut messages: Vec<Message> = Vec::new();
        let mut j: usize = 0;
        while j < self.messages.len()
            invariant
                j <= self.msgs().len(),
                messages@.len() == j,
                forall|i: int|
                    0 <= i < j ==> {
                        &&& (#[trigger] messages@[i]).text_view() == self.msgs()[i].text_view()
                        &&& messages@[i].spans_view() == self.msgs()[i].spans_view()
                    },
            decreases self.msgs().len() - j,
        {
            messages.push(self.messages[j].duplicate());
            j = j + 1;
        }
        let r = MessageSet { messages };
        proof {
            assert(r.model() =~= self.model());
        }
        r
    }
}

} // verus!
