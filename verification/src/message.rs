use crate::justification::after_from_msgs;
use crate::justification::justified_estimate;
use crate::justification::SenderState;
use crate::traits::Estimate;
use crate::traits::EstimateError;
use crate::traits::Value;
use vstd::prelude::*;

verus! {

/// The identity of a validator.
pub type Validator = u32;

/// The mathematical content of a message: who cast it, the value it commits
/// to, and the messages it was built upon. Two messages are the same message
/// exactly when their models are equal.
pub ghost struct MessageModel<V> {
    pub sender: Validator,
    pub estimate: V,
    pub justification: Seq<MessageModel<V>>,
}

/// `a` was built upon `b`: `b` is among the messages that justify `a`, or among
/// those that one of them was built upon.
pub open spec fn depends_on<V>(a: MessageModel<V>, b: MessageModel<V>) -> bool
    decreases a,
{
    exists|i: int|
        0 <= i < a.justification.len() && ((#[trigger] a.justification[i]) == b || depends_on(
            a.justification[i],
            b,
        ))
}

/// Two different messages of one validator, neither built upon the other.
pub open spec fn equivocation<V>(a: MessageModel<V>, b: MessageModel<V>) -> bool {
    a != b && a.sender == b.sender && !depends_on(a, b) && !depends_on(b, a)
}

/// The models of a sequence of messages, in the same order.
pub open spec fn models<E: View>(msgs: Seq<Message<E>>) -> Seq<MessageModel<E::V>> {
    Seq::new(msgs.len(), |i: int| msgs[i]@)
}

/// The models of a sequence of borrowed messages, in the same order.
pub open spec fn models_of_refs<E: View>(msgs: Seq<&Message<E>>) -> Seq<MessageModel<E::V>> {
    Seq::new(msgs.len(), |i: int| (*msgs[i])@)
}

/// The messages of `msgs` in the order of their first occurrence, each once.
pub open spec fn distinct<A>(msgs: Seq<A>) -> Seq<A>
    decreases msgs.len(),
{
    if msgs.len() == 0 {
        msgs
    } else if distinct(msgs.drop_last()).contains(msgs.last()) {
        distinct(msgs.drop_last())
    } else {
        distinct(msgs.drop_last()).push(msgs.last())
    }
}

/// What a message was built upon is smaller than the message.
pub proof fn lemma_depends_decreases<V>(a: MessageModel<V>, b: MessageModel<V>)
    requires
        depends_on(a, b),
    ensures
        decreases_to!(a => b),
    decreases a,
{
    let i = choose|i: int|
        0 <= i < a.justification.len() && ((#[trigger] a.justification[i]) == b || depends_on(
            a.justification[i],
            b,
        ));
    if a.justification[i] != b {
        lemma_depends_decreases(a.justification[i], b);
    }
}

/// No message is built upon itself.
pub proof fn lemma_depends_irreflexive<V>(a: MessageModel<V>)
    ensures
        !depends_on(a, a),
{
    if depends_on(a, a) {
        lemma_depends_decreases(a, a);
    }
}

/// Being built upon is transitive.
pub proof fn lemma_depends_transitive<V>(a: MessageModel<V>, b: MessageModel<V>, c: MessageModel<V>)
    requires
        depends_on(a, b),
        depends_on(b, c),
    ensures
        depends_on(a, c),
    decreases a,
{
    let i = choose|i: int|
        0 <= i < a.justification.len() && ((#[trigger] a.justification[i]) == b || depends_on(
            a.justification[i],
            b,
        ));
    if a.justification[i] != b {
        lemma_depends_transitive(a.justification[i], b, c);
    }
    assert(depends_on(a.justification[i], c));
}

/// `distinct` keeps exactly the values that occur, and keeps each once.
pub proof fn lemma_distinct<A>(msgs: Seq<A>)
    ensures
        distinct(msgs).no_duplicates(),
        forall|x: A| distinct(msgs).contains(x) <==> msgs.contains(x),
        distinct(msgs).len() <= msgs.len(),
    decreases msgs.len(),
{
    if msgs.len() > 0 {
        let front = msgs.drop_last();
        lemma_distinct(front);
        let d = distinct(front);
        assert forall|x: A| distinct(msgs).contains(x) <==> msgs.contains(x) by {
            if msgs.contains(x) {
                let i = choose|i: int| 0 <= i < msgs.len() && msgs[i] == x;
                if i < msgs.len() - 1 {
                    assert(front[i] == x);
                    assert(front.contains(x));
                    assert(d.contains(x) <==> front.contains(x));
                    let k = choose|k: int| 0 <= k < d.len() && d[k] == x;
                    assert(distinct(msgs)[k] == x);
                } else if !d.contains(x) {
                    assert(distinct(msgs)[d.len() as int] == x);
                }
            }
            if distinct(msgs).contains(x) {
                let k = choose|k: int| 0 <= k < distinct(msgs).len() && distinct(msgs)[k] == x;
                if k < d.len() {
                    assert(d[k] == x);
                    assert(d.contains(x));
                    assert(d.contains(x) <==> front.contains(x));
                    let i = choose|i: int| 0 <= i < front.len() && front[i] == x;
                    assert(msgs[i] == x);
                } else {
                    assert(msgs[msgs.len() - 1] == x);
                }
            }
        }
    }
}

/// A vote: a validator's estimate, together with the messages that justify it.
/// A message never changes once it is built.
pub struct Message<E: View> {
    sender: Validator,
    estimate: E,
    justification: Justification<E>,
    sender_previous: Option<Box<Message<E>>>,
}

/// The messages that a message, or a query, is built upon. No message occurs
/// in it twice, and messages are only ever added.
pub struct Justification<E: View>(Vec<Message<E>>);

impl<E: View> View for Message<E> {
    type V = MessageModel<E::V>;

    closed spec fn view(&self) -> MessageModel<E::V> {
        self.model()
    }
}

impl<E: View> View for Justification<E> {
    type V = Seq<MessageModel<E::V>>;

    closed spec fn view(&self) -> Seq<MessageModel<E::V>> {
        models(self.0@)
    }
}

impl<E: View> Message<E> {
    spec fn model(self) -> MessageModel<E::V>
        decreases self,
    {
        MessageModel {
            sender: self.sender,
            estimate: self.estimate@,
            justification: Seq::new(
                self.justification.0.len() as nat,
                |i: int|
                    if 0 <= i < self.justification.0.len() {
                        self.justification.0[i].model()
                    } else {
                        arbitrary()
                    },
            ),
        }
    }

    /// The model of the sender's own prior message, where the message points
    /// to one. It is no part of the message's identity.
    pub closed spec fn previous(&self) -> Option<MessageModel<E::V>> {
        match self.sender_previous {
            Some(p) => Some(p@),
            None => None,
        }
    }

    proof fn lemma_view(self)
        ensures
            self@.sender == self.sender,
            self@.estimate == self.estimate@,
            self@.justification == self.justification@,
    {
        assert forall|i: int| 0 <= i < self@.justification.len() implies self@.justification[i]
            == self.justification@[i] by {
            assert(self@.justification[i] == self.justification.0[i]@);
        }
        assert(self@.justification =~= self.justification@);
    }
}

/// Whether two lists hold the same messages in the same order.
pub(crate) fn same_msgs<E: Value>(a: &Vec<Message<E>>, b: &Vec<Message<E>>) -> (same: bool)
    ensures
        same == (models(a@) == models(b@)),
    decreases a,
{
    let n = a.len();
    if n != b.len() {
        assert(models(a@).len() != models(b@).len());
        return false;
    }
    let mut i: usize = 0;
    while i < n
        invariant
            0 <= i <= n,
            n == a.len(),
            n == b.len(),
            forall|k: int| 0 <= k < i ==> a[k]@ == b[k]@,
        decreases n - i,
    {
        if !a[i].same(&b[i]) {
            assert(models(a@)[i as int] != models(b@)[i as int]);
            return false;
        }
        i += 1;
    }
    assert(models(a@) =~= models(b@));
    true
}

/// A copy of a list of messages.
pub(crate) fn clone_msgs<E: Value>(msgs: &Vec<Message<E>>) -> (copy: Vec<Message<E>>)
    ensures
        models(copy@) == models(msgs@),
    decreases msgs,
{
    let n = msgs.len();
    let mut copy: Vec<Message<E>> = Vec::new();
    let mut i: usize = 0;
    while i < n
        invariant
            0 <= i <= n,
            n == msgs.len(),
            copy.len() == i,
            forall|k: int| 0 <= k < i ==> copy[k]@ == msgs[k]@,
        decreases n - i,
    {
        copy.push(msgs[i].clone());
        i += 1;
    }
    assert(models(copy@) =~= models(msgs@));
    copy
}

/// Whether `msg` is among `msgs`.
pub(crate) fn contains_msg<E: Value>(msgs: &Vec<Message<E>>, msg: &Message<E>) -> (found: bool)
    ensures
        found == models(msgs@).contains(msg@),
{
    let n = msgs.len();
    let mut i: usize = 0;
    while i < n
        invariant
            0 <= i <= n,
            n == msgs.len(),
            forall|k: int| 0 <= k < i ==> models(msgs@)[k] != msg@,
        decreases n - i,
    {
        if msgs[i].same(msg) {
            assert(models(msgs@)[i as int] == msg@);
            return true;
        }
        i += 1;
    }
    false
}

impl<E: Value> Message<E> {
    /// Builds a message from its parts, as they are given.
    pub fn new(
        sender: Validator,
        justification: Justification<E>,
        estimate: E,
        sender_previous: Option<Message<E>>,
    ) -> (msg: Self)
        ensures
            msg@ == (MessageModel {
                sender,
                estimate: estimate@,
                justification: justification@,
            }),
            msg.previous() == (match sender_previous {
                Some(p) => Some(p@),
                None => None,
            }),
    {
        let previous = match sender_previous {
            Some(p) => Some(Box::new(p)),
            None => None,
        };
        let msg = Message { sender, estimate, justification, sender_previous: previous };
        proof {
            msg.lemma_view();
        }
        msg
    }

    /// The validator that cast this message.
    pub fn sender(&self) -> (s: Validator)
        ensures
            s == self@.sender,
    {
        proof {
            self.lemma_view();
        }
        self.sender
    }

    /// The value that this message commits to.
    pub fn estimate(&self) -> (e: &E)
        ensures
            e@ == self@.estimate,
    {
        proof {
            self.lemma_view();
        }
        &self.estimate
    }

    /// The messages that this message was built upon.
    pub fn justification(&self) -> (j: &Justification<E>)
        ensures
            j@ == self@.justification,
    {
        proof {
            self.lemma_view();
        }
        &self.justification
    }

    /// The sender's own prior message, where this message points to one.
    pub fn sender_previous(&self) -> (p: Option<&Message<E>>)
        ensures
            self.previous() == (match p {
                Some(prior) => Some(prior@),
                None => None,
            }),
    {
        match &self.sender_previous {
            Some(prior) => Some(&**prior),
            None => None,
        }
    }

    /// Whether this and `other` are the same message: the same sender, the same
    /// estimate and the same justification.
    pub fn same(&self, other: &Self) -> (b: bool)
        ensures
            b == (self@ == other@),
        decreases self,
    {
        proof {
            self.lemma_view();
            other.lemma_view();
        }
        self.sender == other.sender && self.estimate.same(&other.estimate) && same_msgs(
            &self.justification.0,
            &other.justification.0,
        )
    }

    /// Whether this message was built upon `rhs`, directly or through the
    /// messages that justify it.
    pub fn depends(&self, rhs: &Self) -> (b: bool)
        ensures
            b == depends_on(self@, rhs@),
        decreases self,
    {
        proof {
            self.lemma_view();
        }
        if contains_msg(&self.justification.0, rhs) {
            let ghost k = choose|k: int|
                0 <= k < self@.justification.len() && self@.justification[k] == rhs@;
            assert(self@.justification[k] == rhs@);
            return true;
        }
        let n = self.justification.0.len();
        let mut i: usize = 0;
        while i < n
            invariant
                0 <= i <= n,
                n == self.justification.0.len(),
                self@.justification == models(self.justification.0@),
                forall|k: int| 0 <= k < i ==> !depends_on(#[trigger] self@.justification[k], rhs@),
            decreases n - i,
        {
            if self.justification.0[i].depends(rhs) {
                assert(depends_on(self@.justification[i as int], rhs@));
                return true;
            }
            i += 1;
        }
        assert(!models(self.justification.0@).contains(rhs@));
        false
    }

    /// Whether this and `rhs` are two conflicting messages of one validator.
    pub fn equivocates(&self, rhs: &Self) -> (b: bool)
        ensures
            b == equivocation(self@, rhs@),
    {
        !self.same(rhs) && self.sender() == rhs.sender() && !rhs.depends(self) && !self.depends(
            rhs,
        )
    }
}

impl<E: Estimate> Message<E> {
    /// The next message of `sender`, built upon `new_msgs`: its justification
    /// holds them, each once, and its estimate is the one that this
    /// justification gives under the state's weights and equivocators. Comes
    /// with the state after the messages have been seen. Where the
    /// justification gives no estimate, no message is built.
    pub fn from_msgs(
        sender: Validator,
        new_msgs: Vec<&Message<E>>,
        sender_state: &SenderState<E>,
    ) -> (r: Result<(Self, SenderState<E>), EstimateError>)
        ensures
            match r {
                Ok((msg, state)) => {
                    &&& msg@.sender == sender
                    &&& msg@.justification == distinct(models_of_refs(new_msgs@))
                    &&& Ok::<E::V, EstimateError>(msg@.estimate) == justified_estimate::<E>(
                        msg@.justification,
                        sender_state@.equivocators,
                        sender_state@.senders_weights,
                    )
                    &&& msg.previous() is None
                    &&& state@ == after_from_msgs(sender_state@, models_of_refs(new_msgs@))
                },
                Err(e) => Err::<E::V, EstimateError>(e) == justified_estimate::<E>(
                    distinct(models_of_refs(new_msgs@)),
                    sender_state@.equivocators,
                    sender_state@.senders_weights,
                ),
            },
    {
        let n = new_msgs.len();
        let mut parents: Vec<Message<E>> = Vec::new();
        let mut i: usize = 0;
        while i < n
            invariant
                0 <= i <= n,
                n == new_msgs.len(),
                parents.len() == i,
                forall|k: int| 0 <= k < i ==> parents[k]@ == (*new_msgs[k])@,
            decreases n - i,
        {
            parents.push(new_msgs[i].clone());
            i += 1;
        }
        assert(models(parents@) =~= models_of_refs(new_msgs@));
        let (justification, state) = Justification::from_msgs(parents, sender_state);
        match justification.mk_estimate(state.equivocators(), state.senders_weights()) {
            Ok(estimate) => Ok((Message::new(sender, justification, estimate, None), state)),
            Err(e) => Err(e),
        }
    }
}

impl<E: Value> Clone for Message<E> {
    fn clone(&self) -> (copy: Self)
        ensures
            copy@ == self@,
            copy.previous() == self.previous(),
        decreases self,
    {
        let msgs = clone_msgs(&self.justification.0);
        let previous = match &self.sender_previous {
            Some(prior) => Some(Box::new((&**prior).clone())),
            None => None,
        };
        proof {
            use_type_invariant(&self.justification);
            self.lemma_view();
        }
        let copy = Message {
            sender: self.sender,
            estimate: self.estimate.duplicate(),
            justification: Justification(msgs),
            sender_previous: previous,
        };
        proof {
            copy.lemma_view();
        }
        copy
    }
}

impl<E: View> Justification<E> {
    #[verifier::type_invariant]
    spec fn each_once(self) -> bool {
        self@.no_duplicates()
    }
}

impl<E: Value> Justification<E> {
    /// The empty justification.
    pub fn new() -> (j: Self)
        ensures
            j@ == Seq::<MessageModel<E::V>>::empty(),
    {
        let j = Justification(Vec::new());
        assert(j@ =~= Seq::<MessageModel<E::V>>::empty());
        j
    }

    /// How many messages it holds.
    pub fn len(&self) -> (n: usize)
        ensures
            n == self@.len(),
    {
        self.0.len()
    }

    /// Whether it holds no message.
    pub fn is_empty(&self) -> (empty: bool)
        ensures
            empty == (self@.len() == 0),
    {
        self.0.len() == 0
    }

    /// Its messages, in the order of insertion.
    pub fn messages(&self) -> (msgs: &Vec<Message<E>>)
        ensures
            models(msgs@) == self@,
            self@.no_duplicates(),
    {
        proof {
            use_type_invariant(self);
        }
        &self.0
    }

    /// Whether `msg` is one of its messages.
    pub fn contains(&self, msg: &Message<E>) -> (found: bool)
        ensures
            found == self@.contains(msg@),
    {
        contains_msg(&self.0, msg)
    }

    /// Adds `msg` unless it is there already. Returns whether it was added.
    pub fn insert(&mut self, msg: Message<E>) -> (added: bool)
        ensures
            added == !old(self)@.contains(msg@),
            final(self)@ == (if added {
                old(self)@.push(msg@)
            } else {
                old(self)@
            }),
    {
        proof {
            use_type_invariant(&*self);
        }
        if contains_msg(&self.0, &msg) {
            false
        } else {
            let ghost before = self@;
            let mut msgs: Vec<Message<E>> = Vec::new();
            core::mem::swap(&mut self.0, &mut msgs);
            msgs.push(msg);
            assert(models(msgs@) =~= before.push(msg@));
            self.0 = msgs;
            true
        }
    }
}

impl<E: Value> Clone for Justification<E> {
    fn clone(&self) -> (copy: Self)
        ensures
            copy@ == self@,
    {
        proof {
            use_type_invariant(self);
        }
        Justification(clone_msgs(&self.0))
    }
}

} // verus!
