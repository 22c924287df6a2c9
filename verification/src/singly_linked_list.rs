//! A singly linked list over any data type that supports equality.
//!
//! Each node owns its successor, so the list is a chain of boxes starting at
//! `first`. Operations that compare data (finding a node, inserting next to
//! one, deleting by value) speak of `eq_spec`, the specification of the `==`
//! operator, and promise their full contract for data types whose `==` obeys
//! it. Structural edits that name an element treat a missing element as a
//! caller error: their preconditions require the element to be present.

use vstd::prelude::*;
use vstd::std_specs::cmp::PartialEqSpec;
use vstd::string::StringExecFns;

verus! {

/// One link of the chain: a data block and the optional next node.
#[derive(Debug, PartialEq)]
pub struct Node<T> {
    pub data: T,
    pub next: Option<Box<Node<T>>>,
}

impl<T> Node<T> {
    pub fn new(data: T) -> (r: Self)
        ensures
            r.data == data,
            r.next is None,
    {
        Node { data, next: None }
    }

    pub fn new_with_next(data: T, next: Option<Box<Node<T>>>) -> (r: Self)
        ensures
            r.data == data,
            r.next == next,
    {
        Node { data, next }
    }
}

/// The sequence of data blocks reachable from a chain link, in list order.
pub open spec fn chain_seq<T>(node: Option<Box<Node<T>>>) -> Seq<T>
    decreases node,
{
    match node {
        None => Seq::empty(),
        Some(n) => seq![n.data] + chain_seq(n.next),
    }
}

/// All data blocks but the first; the empty sequence when there are none.
pub open spec fn tail_of<T>(s: Seq<T>) -> Seq<T> {
    if s.len() == 0 {
        Seq::empty()
    } else {
        s.drop_first()
    }
}

/// A chain's sequence is empty exactly when the chain is, and a link's
/// sequence starts with its data block, followed by those of its successors.
pub proof fn lemma_chain_seq_unfold<T>(node: Option<Box<Node<T>>>)
    ensures
        node is None ==> chain_seq(node) == Seq::<T>::empty(),
        node is Some ==> chain_seq(node).len() >= 1,
        node is Some ==> chain_seq(node) == seq![node.unwrap().data] + chain_seq(
            node.unwrap().next,
        ),
        node is Some ==> chain_seq(node)[0] == node.unwrap().data,
        node is Some ==> tail_of(chain_seq(node)) == chain_seq(node.unwrap().next),
{
    match node {
        None => {},
        Some(n) => {
            assert(chain_seq(node) == seq![n.data] + chain_seq(n.next));
            assert(tail_of(chain_seq(node)) =~= chain_seq(n.next));
        },
    }
}

/// The position of the first data block that `==` considers equal to `item`,
/// or -1 when none is; spoken of through `eq_spec`.
pub open spec fn index_of_item<T: PartialEq>(s: Seq<T>, item: T) -> int
    decreases s.len(),
{
    if s.len() == 0 {
        -1
    } else if s[0].eq_spec(&item) {
        0
    } else if index_of_item(s.drop_first(), item) == -1 {
        -1
    } else {
        index_of_item(s.drop_first(), item) + 1
    }
}

/// What `index_of_item` finds: -1 means the item occurs nowhere; otherwise it
/// is the position of the first occurrence.
pub proof fn lemma_index_of_item<T: PartialEq>(s: Seq<T>, item: T)
    ensures
        index_of_item(s, item) == -1 ==> forall|i: int|
            0 <= i < s.len() ==> !(#[trigger] s[i]).eq_spec(&item),
        index_of_item(s, item) != -1 ==> 0 <= index_of_item(s, item) < s.len(),
        index_of_item(s, item) != -1 ==> s[index_of_item(s, item)].eq_spec(&item),
        index_of_item(s, item) != -1 ==> forall|i: int|
            0 <= i < index_of_item(s, item) ==> !(#[trigger] s[i]).eq_spec(&item),
    decreases s.len(),
{
    if s.len() > 0 && !s[0].eq_spec(&item) {
        lemma_index_of_item(s.drop_first(), item);
        assert forall|i: int| 1 <= i < s.len() implies s[i] == s.drop_first()[i - 1] by {}
    }
}

/// A singly linked list: the optional first node of an owned chain.
#[derive(Debug, PartialEq)]
pub struct SinglyLinkedList<T> {
    pub first: Option<Box<Node<T>>>,
}

impl<T> View for SinglyLinkedList<T> {
    type V = Seq<T>;

    open spec fn view(&self) -> Seq<T> {
        chain_seq(self.first)
    }
}

impl<T: PartialEq> SinglyLinkedList<T> {
    pub fn new() -> (r: Self)
        ensures
            r@ == Seq::<T>::empty(),
    {
        SinglyLinkedList { first: None }
    }

    pub fn is_empty(&self) -> (r: bool)
        ensures
            r == (self@.len() == 0),
    {
        proof {
            lemma_chain_seq_unfold(self.first);
        }
        self.first.is_none()
    }

    /// Drop all nodes.
    pub fn clear(&mut self)
        ensures
            final(self)@ == Seq::<T>::empty(),
    {
        self.first = None;
    }

    /// The last link of a chain, or `None` for an empty chain.
    fn last_of_chain(node: &Option<Box<Node<T>>>) -> (r: Option<&Box<Node<T>>>)
        ensures
            match r {
                Some(n) => chain_seq(*node).len() > 0 && chain_seq(Some(*n)) == chain_seq(
                    *node,
                ).skip(chain_seq(*node).len() - 1),
                None => chain_seq(*node).len() == 0,
            },
        decreases node,
    {
        match node {
            None => None,
            Some(n) => {
                proof {
                    lemma_chain_seq_unfold(*node);
                    lemma_chain_seq_unfold(n.next);
                }
                if n.next.is_none() {
                    proof {
                        assert(chain_seq(Some(*n)) =~= chain_seq(*node).skip(
                            chain_seq(*node).len() - 1,
                        ));
                    }
                    Some(n)
                } else {
                    let r = Self::last_of_chain(&n.next);
                    proof {
                        assert(chain_seq(n.next).len() > 0);
                        assert(chain_seq(n.next).skip(chain_seq(n.next).len() - 1) =~= chain_seq(
                            *node,
                        ).skip(chain_seq(*node).len() - 1));
                    }
                    r
                }
            },
        }
    }

    /// Finds the last node of the list: `None` when the list is empty, else
    /// the node holding the final data block.
    pub fn find_last_node(&self) -> (r: Option<&Box<Node<T>>>)
        ensures
            match r {
                Some(n) => self@.len() > 0 && chain_seq(Some(*n)) == self@.skip(self@.len() - 1),
                None => self@.len() == 0,
            },
    {
        Self::last_of_chain(&self.first)
    }

    /// The second-to-last link of a chain, or `None` for a chain shorter than
    /// two links.
    fn before_last_of_chain(node: &Option<Box<Node<T>>>) -> (r: Option<&Box<Node<T>>>)
        ensures
            match r {
                Some(n) => chain_seq(*node).len() >= 2 && chain_seq(Some(*n)) == chain_seq(
                    *node,
                ).skip(chain_seq(*node).len() - 2),
                None => chain_seq(*node).len() < 2,
            },
        decreases node,
    {
        match node {
            None => None,
            Some(n) => {
                match &n.next {
                    None => None,
                    Some(next_node) => {
                        proof {
                            lemma_chain_seq_unfold(*node);
                            lemma_chain_seq_unfold(n.next);
                            lemma_chain_seq_unfold(next_node.next);
                        }
                        if next_node.next.is_none() {
                            proof {
                                assert(chain_seq(Some(*n)) =~= chain_seq(*node).skip(
                                    chain_seq(*node).len() - 2,
                                ));
                            }
                            Some(n)
                        } else {
                            let r = Self::before_last_of_chain(&n.next);
                            proof {
                                assert(chain_seq(n.next).len() >= 2);
                                assert(chain_seq(n.next).skip(chain_seq(n.next).len() - 2)
                                    =~= chain_seq(*node).skip(chain_seq(*node).len() - 2));
                            }
                            r
                        }
                    },
                }
            },
        }
    }

    /// Finds the node before the last one: `None` when the list has fewer
    /// than two nodes.
    pub fn find_before_last(&self) -> (r: Option<&Box<Node<T>>>)
        ensures
            match r {
                Some(n) => self@.len() >= 2 && chain_seq(Some(*n)) == self@.skip(self@.len() - 2),
                None => self@.len() < 2,
            },
    {
        Self::before_last_of_chain(&self.first)
    }

    /// The first link whose data `==` considers equal to `given_data`, or
    /// `None` when no link's is.
    fn node_with_data<'a>(node: &'a Option<Box<Node<T>>>, given_data: &T) -> (r: Option<
        &'a Box<Node<T>>,
    >)
        ensures
            T::obeys_eq_spec() ==> match r {
                Some(n) => index_of_item(chain_seq(*node), *given_data) >= 0 && chain_seq(
                    Some(*n),
                ) == chain_seq(*node).skip(index_of_item(chain_seq(*node), *given_data)),
                None => index_of_item(chain_seq(*node), *given_data) == -1,
            },
        decreases node,
    {
        match node {
            None => None,
            Some(n) => {
                proof {
                    lemma_chain_seq_unfold(*node);
                }
                if n.data == *given_data {
                    proof {
                        if T::obeys_eq_spec() {
                            assert(index_of_item(chain_seq(*node), *given_data) == 0);
                            assert(chain_seq(Some(*n)) =~= chain_seq(*node).skip(0));
                        }
                    }
                    Some(n)
                } else {
                    let r = Self::node_with_data(&n.next, given_data);
                    proof {
                        if T::obeys_eq_spec() {
                            assert(chain_seq(n.next) =~= chain_seq(*node).drop_first());
                            let sub = index_of_item(chain_seq(n.next), *given_data);
                            if sub >= 0 {
                                lemma_index_of_item(chain_seq(n.next), *given_data);
                                assert(chain_seq(n.next).skip(sub) =~= chain_seq(*node).skip(
                                    sub + 1,
                                ));
                            }
                        }
                    }
                    r
                }
            },
        }
    }

    /// Finds the first node holding data equal to `given_data`, or `None`
    /// when no node does.
    pub fn find_node(&self, given_data: &T) -> (r: Option<&Box<Node<T>>>)
        ensures
            T::obeys_eq_spec() ==> match r {
                Some(n) => index_of_item(self@, *given_data) >= 0 && chain_seq(Some(*n))
                    == self@.skip(index_of_item(self@, *given_data)),
                None => index_of_item(self@, *given_data) == -1,
            },
    {
        Self::node_with_data(&self.first, given_data)
    }

    /// The link before the first one past the head whose data equals
    /// `given_data`, or `None` when no link past the head qualifies.
    fn previous_of_chain<'a>(node: &'a Option<Box<Node<T>>>, given_data: &T) -> (r: Option<
        &'a Box<Node<T>>,
    >)
        ensures
            T::obeys_eq_spec() ==> match r {
                Some(n) => index_of_item(tail_of(chain_seq(*node)), *given_data) >= 0 && chain_seq(
                    Some(*n),
                ) == chain_seq(*node).skip(index_of_item(tail_of(chain_seq(*node)), *given_data)),
                None => index_of_item(tail_of(chain_seq(*node)), *given_data) == -1,
            },
        decreases node,
    {
        match node {
            None => None,
            Some(n) => {
                proof {
                    lemma_chain_seq_unfold(*node);
                    lemma_chain_seq_unfold(n.next);
                }
                match &n.next {
                    None => None,
                    Some(next_node) => {
                        if next_node.data == *given_data {
                            proof {
                                if T::obeys_eq_spec() {
                                    assert(chain_seq(n.next)[0] == next_node.data);
                                    assert(index_of_item(chain_seq(n.next), *given_data) == 0);
                                    assert(chain_seq(Some(*n)) =~= chain_seq(*node).skip(0));
                                }
                            }
                            Some(n)
                        } else {
                            let r = Self::previous_of_chain(&n.next, given_data);
                            proof {
                                if T::obeys_eq_spec() {
                                    let rest = chain_seq(n.next);
                                    assert(rest[0] == next_node.data);
                                    let sub = index_of_item(tail_of(rest), *given_data);
                                    assert(tail_of(rest) == rest.drop_first());
                                    if sub >= 0 {
                                        lemma_index_of_item(rest.drop_first(), *given_data);
                                        assert(index_of_item(rest, *given_data) == sub + 1);
                                        assert(rest.skip(sub) =~= chain_seq(*node).skip(sub + 1));
                                    }
                                }
                            }
                            r
                        }
                    },
                }
            },
        }
    }

    /// Finds the node standing before the first node past the head whose data
    /// equals `given_data`: `None` when such data occurs nowhere past the
    /// head, in particular when the list is empty or the data only sits at
    /// the head.
    pub fn find_previous_node(&self, given_data: &T) -> (r: Option<&Box<Node<T>>>)
        ensures
            T::obeys_eq_spec() ==> match r {
                Some(n) => index_of_item(tail_of(self@), *given_data) >= 0 && chain_seq(Some(*n))
                    == self@.skip(index_of_item(tail_of(self@), *given_data)),
                None => index_of_item(tail_of(self@), *given_data) == -1,
            },
    {
        Self::previous_of_chain(&self.first, given_data)
    }

    /// Append a data block to the end of a chain.
    fn push_back_in_chain(node: &mut Option<Box<Node<T>>>, data: T)
        ensures
            chain_seq(*final(node)) == chain_seq(*old(node)).push(data),
        decreases *old(node),
    {
        match node.take() {
            None => {
                let ghost item = data;
                *node = Some(Box::new(Node::new(data)));
                proof {
                    assert(chain_seq(*node) =~= chain_seq(*old(node)).push(item));
                }
            },
            Some(mut n) => {
                let ghost item = data;
                Self::push_back_in_chain(&mut n.next, data);
                *node = Some(n);
                proof {
                    assert(chain_seq(*node) =~= chain_seq(*old(node)).push(item));
                }
            },
        }
    }

    /// Add a data block at the end of the list.
    pub fn append(&mut self, data: T)
        ensures
            final(self)@ == old(self)@.push(data),
    {
        Self::push_back_in_chain(&mut self.first, data);
    }

    /// Add a data block at the front of the list.
    pub fn prepend(&mut self, data: T)
        ensures
            final(self)@ == seq![data] + old(self)@,
    {
        let ghost item = data;
        let new_node = Box::new(Node::new_with_next(data, self.first.take()));
        self.first = Some(new_node);
        proof {
            assert(self@ =~= seq![item] + old(self)@);
        }
    }

    /// Insert `data` right after the first occurrence of `given_data`.
    fn splice_after_in_chain(node: &mut Option<Box<Node<T>>>, data: T, given_data: &T)
        requires
            T::obeys_eq_spec(),
            index_of_item(chain_seq(*old(node)), *given_data) >= 0,
        ensures
            chain_seq(*final(node)) == chain_seq(*old(node)).insert(
                index_of_item(chain_seq(*old(node)), *given_data) + 1,
                data,
            ),
        decreases *old(node),
    {
        match node.take() {
            None => {
                *node = None;
            },
            Some(mut n) => {
                let ghost s = chain_seq(*old(node));
                let ghost rest0 = chain_seq(n.next);
                let ghost item = data;
                proof {
                    assert(s == seq![n.data] + rest0);
                }
                if n.data == *given_data {
                    let old_next = n.next.take();
                    let new_node = Box::new(Node::new_with_next(data, old_next));
                    n.next = Some(new_node);
                    *node = Some(n);
                    proof {
                        assert(index_of_item(s, *given_data) == 0);
                        assert(chain_seq(*node) == seq![n.data] + chain_seq(n.next));
                        assert(chain_seq(n.next) == seq![item] + rest0);
                        assert(chain_seq(*node) =~= s.insert(1, item));
                    }
                } else {
                    proof {
                        assert(s.drop_first() =~= rest0);
                        assert(s[0] == n.data);
                        assert(index_of_item(rest0, *given_data) >= 0);
                    }
                    Self::splice_after_in_chain(&mut n.next, data, given_data);
                    *node = Some(n);
                    proof {
                        let sub = index_of_item(rest0, *given_data);
                        lemma_index_of_item(rest0, *given_data);
                        assert(0 <= sub < rest0.len());
                        assert(chain_seq(*node) == seq![n.data] + chain_seq(n.next));
                        assert(chain_seq(*node) =~= s.insert(sub + 2, item));
                    }
                }
            },
        }
    }

    /// Insert `data` right after the first node holding `given_data`. The
    /// list must hold `given_data`: inserting next to a data block that is
    /// not there is a caller error.
    pub fn insert_after_given(&mut self, data: T, given_data: T)
        requires
            T::obeys_eq_spec(),
            index_of_item(old(self)@, given_data) >= 0,
        ensures
            final(self)@ == old(self)@.insert(
                index_of_item(old(self)@, given_data) + 1,
                data,
            ),
    {
        Self::splice_after_in_chain(&mut self.first, data, &given_data);
    }

    /// Insert `data` right before the first occurrence of `given_data` past
    /// the head.
    #[verifier::rlimit(50)]
    fn splice_before_in_chain(node: &mut Option<Box<Node<T>>>, data: T, given_data: &T)
        requires
            T::obeys_eq_spec(),
            index_of_item(tail_of(chain_seq(*old(node))), *given_data) >= 0,
        ensures
            chain_seq(*final(node)) == chain_seq(*old(node)).insert(
                index_of_item(tail_of(chain_seq(*old(node))), *given_data) + 1,
                data,
            ),
        decreases *old(node),
    {
        match node.take() {
            None => {
                *node = None;
            },
            Some(mut n) => {
                let ghost s = chain_seq(*old(node));
                let ghost rest0 = chain_seq(n.next);
                let ghost item = data;
                proof {
                    assert(s == seq![n.data] + rest0);
                    assert(tail_of(s) =~= rest0);
                    lemma_chain_seq_unfold(n.next);
                }
                let next_matches = match &n.next {
                    Some(next_node) => next_node.data == *given_data,
                    None => false,
                };
                if next_matches {
                    let old_next = n.next.take();
                    let new_node = Box::new(Node::new_with_next(data, old_next));
                    n.next = Some(new_node);
                    *node = Some(n);
                    proof {
                        assert(rest0[0].eq_spec(given_data));
                        assert(index_of_item(rest0, *given_data) == 0);
                        assert(chain_seq(*node) == seq![n.data] + chain_seq(n.next));
                        assert(chain_seq(n.next) == seq![item] + rest0);
                        assert(chain_seq(*node) =~= s.insert(1, item));
                    }
                } else {
                    proof {
                        if n.next is None {
                            assert(rest0 =~= Seq::<T>::empty());
                            assert(false);
                        }
                        assert(!rest0[0].eq_spec(given_data));
                        assert(tail_of(rest0) =~= rest0.drop_first());
                        assert(index_of_item(tail_of(rest0), *given_data) >= 0);
                    }
                    Self::splice_before_in_chain(&mut n.next, data, given_data);
                    *node = Some(n);
                    proof {
                        let sub = index_of_item(tail_of(rest0), *given_data);
                        lemma_index_of_item(rest0.drop_first(), *given_data);
                        assert(0 <= sub < rest0.drop_first().len());
                        assert(index_of_item(rest0, *given_data) == sub + 1);
                        assert(chain_seq(*node) == seq![n.data] + chain_seq(n.next));
                        assert(chain_seq(*node) =~= s.insert(sub + 2, item));
                    }
                }
            },
        }
    }

    /// Insert `data` right before the first node past the head that holds
    /// `given_data`. The data must occur past the head: inserting before a
    /// data block that is not there, or that only sits at the head, is a
    /// caller error.
    pub fn insert_before_given(&mut self, data: T, given_data: T)
        requires
            T::obeys_eq_spec(),
            index_of_item(tail_of(old(self)@), given_data) >= 0,
        ensures
            final(self)@ == old(self)@.insert(
                index_of_item(tail_of(old(self)@), given_data) + 1,
                data,
            ),
    {
        Self::splice_before_in_chain(&mut self.first, data, &given_data);
    }

    /// Delete the first node. Deleting from an empty list is a caller error.
    pub fn delete_first(&mut self)
        requires
            old(self)@.len() > 0,
        ensures
            final(self)@ == old(self)@.drop_first(),
    {
        proof {
            lemma_chain_seq_unfold(self.first);
        }
        let first = self.first.take().unwrap();
        let first_node = *first;
        self.first = first_node.next;
        proof {
            assert(chain_seq(self.first) =~= old(self)@.drop_first());
        }
    }

    /// Cut the last link off a chain of at least two links.
    fn drop_last_in_chain(node: &mut Option<Box<Node<T>>>)
        requires
            chain_seq(*old(node)).len() >= 2,
        ensures
            chain_seq(*final(node)) == chain_seq(*old(node)).drop_last(),
        decreases *old(node),
    {
        match node.take() {
            None => {
                *node = None;
            },
            Some(mut n) => {
                let ghost s = chain_seq(*old(node));
                let ghost rest0 = chain_seq(n.next);
                proof {
                    assert(s == seq![n.data] + rest0);
                    lemma_chain_seq_unfold(n.next);
                }
                let cut_here = match &n.next {
                    Some(next_node) => next_node.next.is_none(),
                    None => false,
                };
                if cut_here {
                    proof {
                        lemma_chain_seq_unfold(n.next.unwrap().next);
                        assert(rest0.len() == 1);
                    }
                    n.next = None;
                    *node = Some(n);
                    proof {
                        assert(chain_seq(*node) =~= s.drop_last());
                    }
                } else {
                    proof {
                        if n.next is None {
                            assert(rest0 =~= Seq::<T>::empty());
                            assert(false);
                        }
                        lemma_chain_seq_unfold(n.next.unwrap().next);
                        assert(rest0.len() >= 2);
                    }
                    Self::drop_last_in_chain(&mut n.next);
                    *node = Some(n);
                    proof {
                        assert(chain_seq(*node) == seq![n.data] + chain_seq(n.next));
                        assert(chain_seq(*node) =~= s.drop_last());
                    }
                }
            },
        }
    }

    /// Delete the last node. The list must have at least two nodes: deleting
    /// the last node of an empty or single-node list is a caller error (the
    /// sole node of a one-node list is removed with `delete_first`).
    pub fn delete_last(&mut self)
        requires
            old(self)@.len() >= 2,
        ensures
            final(self)@ == old(self)@.drop_last(),
    {
        Self::drop_last_in_chain(&mut self.first);
    }

    /// Remove the node after the one holding the first occurrence of `data`
    /// past the head.
    fn remove_next_match(node: &mut Option<Box<Node<T>>>, data: &T)
        requires
            T::obeys_eq_spec(),
            index_of_item(chain_seq(*old(node)), *data) >= 1,
        ensures
            chain_seq(*final(node)) == chain_seq(*old(node)).remove(
                index_of_item(chain_seq(*old(node)), *data),
            ),
        decreases *old(node),
    {
        match node.take() {
            None => {
                *node = None;
            },
            Some(mut n) => {
                let ghost s = chain_seq(*old(node));
                let ghost rest0 = chain_seq(n.next);
                proof {
                    assert(s == seq![n.data] + rest0);
                    assert(s.drop_first() =~= rest0);
                    lemma_chain_seq_unfold(n.next);
                    if n.next is None {
                        assert(rest0 =~= Seq::<T>::empty());
                        assert(index_of_item(rest0, *data) == -1);
                        assert(index_of_item(s, *data) < 1);
                        assert(false);
                    }
                }
                let next_matches = match &n.next {
                    Some(next_node) => next_node.data == *data,
                    None => false,
                };
                if next_matches {
                    let old_next = n.next.take();
                    proof {
                        lemma_chain_seq_unfold(old_next);
                    }
                    let removed = old_next.unwrap();
                    let removed_node = *removed;
                    n.next = removed_node.next;
                    *node = Some(n);
                    proof {
                        assert(rest0[0].eq_spec(data));
                        assert(index_of_item(rest0, *data) == 0);
                        assert(index_of_item(s, *data) == 1);
                        assert(chain_seq(*node) == seq![n.data] + chain_seq(n.next));
                        assert(chain_seq(n.next) =~= rest0.drop_first());
                        assert(chain_seq(*node) =~= s.remove(1));
                    }
                } else {
                    proof {
                        assert(!rest0[0].eq_spec(data));
                        assert(index_of_item(rest0, *data) == index_of_item(s, *data) - 1);
                        assert(index_of_item(rest0, *data) >= 1) by {
                            if index_of_item(rest0, *data) == 0 {
                                lemma_index_of_item(rest0, *data);
                            }
                        }
                    }
                    Self::remove_next_match(&mut n.next, data);
                    *node = Some(n);
                    proof {
                        let sub = index_of_item(rest0, *data);
                        lemma_index_of_item(rest0, *data);
                        assert(0 <= sub < rest0.len());
                        assert(chain_seq(*node) == seq![n.data] + chain_seq(n.next));
                        assert(chain_seq(*node) =~= s.remove(sub + 1));
                    }
                }
            },
        }
    }

    /// Delete by value: the list is scanned for the first node holding data
    /// equal to `data`. When that node is the head, the whole list is
    /// cleared; when it sits anywhere later, only that node is removed and
    /// the remaining nodes keep their order. The data must be present:
    /// deleting a data block that is not in the list is a caller error.
    pub fn delete_node_with_data(&mut self, data: T)
        requires
            T::obeys_eq_spec(),
            index_of_item(old(self)@, data) >= 0,
        ensures
            index_of_item(old(self)@, data) == 0 ==> final(self)@ == Seq::<T>::empty(),
            index_of_item(old(self)@, data) > 0 ==> final(self)@ == old(self)@.remove(
                index_of_item(old(self)@, data),
            ),
    {
        proof {
            lemma_chain_seq_unfold(self.first);
        }
        let head_matches = match &self.first {
            Some(n) => n.data == data,
            None => false,
        };
        if head_matches {
            self.first = None;
        } else {
            proof {
                assert(!old(self)@[0].eq_spec(&data));
            }
            Self::remove_next_match(&mut self.first, &data);
        }
    }
}

/// The list's data blocks joined for display: each one followed by an arrow.
pub open spec fn display_of(s: Seq<&str>) -> Seq<char>
    decreases s.len(),
{
    if s.len() == 0 {
        Seq::empty()
    } else {
        s[0]@ + " -> "@ + display_of(s.drop_first())
    }
}

impl<'a> SinglyLinkedList<&'a str> {
    /// The data blocks joined for display, in list order, each followed by
    /// an arrow: `"A -> B -> "`. Empty for an empty list.
    fn display_chain(node: &Option<Box<Node<&'a str>>>) -> (r: String)
        ensures
            r@ == display_of(chain_seq(*node)),
        decreases node,
    {
        match node {
            None => String::new(),
            Some(n) => {
                proof {
                    lemma_chain_seq_unfold(*node);
                    assert(chain_seq(n.next) =~= chain_seq(*node).drop_first());
                }
                let mut out: String = n.data.to_owned();
                out.append(" -> ");
                let rest = Self::display_chain(&n.next);
                out.append(rest.as_str());
                out
            },
        }
    }

    /// The list rendered as a string: each data block followed by an arrow.
    pub fn display_string(&self) -> (r: String)
        ensures
            r@ == display_of(self@),
    {
        Self::display_chain(&self.first)
    }
}

} // verus!
