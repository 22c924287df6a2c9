//! A singly linked list of strings.
//!
//! Each node owns its successor, so the list is a chain of boxes starting at
//! `first`. Structural edits that name an element (inserting next to it,
//! deleting by value) treat a missing element as a caller error: their
//! preconditions require the element to be present.

use vstd::prelude::*;

verus! {

/// One link of the chain: a data block and the optional next node.
#[derive(Debug, PartialEq)]
pub struct Node {
    pub data: String,
    pub next: Option<Box<Node>>,
}

impl Node {
    pub fn new(data: String) -> (r: Self)
        ensures
            r.data == data,
            r.next is None,
    {
        Node { data, next: None }
    }

    pub fn new_with_next(data: String, next: Option<Box<Node>>) -> (r: Self)
        ensures
            r.data == data,
            r.next == next,
    {
        Node { data, next }
    }
}

/// The sequence of data blocks reachable from a chain link, in list order.
pub open spec fn chain_view(node: Option<Box<Node>>) -> Seq<Seq<char>>
    decreases node,
{
    match node {
        None => Seq::empty(),
        Some(n) => seq![n.data@] + chain_view(n.next),
    }
}

/// All data blocks but the first; the empty sequence when there are none.
pub open spec fn rest_of(s: Seq<Seq<char>>) -> Seq<Seq<char>> {
    if s.len() == 0 {
        Seq::empty()
    } else {
        s.drop_first()
    }
}

/// A chain's view is empty exactly when the chain is, and a link's view
/// starts with its data block, followed by the views of its successors.
pub proof fn lemma_chain_view_unfold(node: Option<Box<Node>>)
    ensures
        node is None ==> chain_view(node) == Seq::<Seq<char>>::empty(),
        node is Some ==> chain_view(node).len() >= 1,
        node is Some ==> chain_view(node) == seq![node.unwrap().data@] + chain_view(
            node.unwrap().next,
        ),
        node is Some ==> chain_view(node)[0] == node.unwrap().data@,
        node is Some ==> rest_of(chain_view(node)) == chain_view(node.unwrap().next),
{
    match node {
        None => {},
        Some(n) => {
            assert(chain_view(node) == seq![n.data@] + chain_view(n.next));
            assert(rest_of(chain_view(node)) =~= chain_view(n.next));
        },
    }
}

/// The position of the first data block equal to `data`, or -1 when none is.
pub open spec fn index_of_data(s: Seq<Seq<char>>, data: Seq<char>) -> int
    decreases s.len(),
{
    if s.len() == 0 {
        -1
    } else if s[0] == data {
        0
    } else if index_of_data(s.drop_first(), data) == -1 {
        -1
    } else {
        index_of_data(s.drop_first(), data) + 1
    }
}

/// What `index_of_data` finds: -1 means the data occurs nowhere; otherwise it
/// is the position of the first occurrence.
pub proof fn lemma_index_of_data(s: Seq<Seq<char>>, data: Seq<char>)
    ensures
        index_of_data(s, data) == -1 ==> forall|i: int| 0 <= i < s.len() ==> s[i] != data,
        index_of_data(s, data) != -1 ==> 0 <= index_of_data(s, data) < s.len(),
        index_of_data(s, data) != -1 ==> s[index_of_data(s, data)] == data,
        index_of_data(s, data) != -1 ==> forall|i: int|
            0 <= i < index_of_data(s, data) ==> s[i] != data,
    decreases s.len(),
{
    if s.len() > 0 && s[0] != data {
        lemma_index_of_data(s.drop_first(), data);
        assert forall|i: int| 1 <= i < s.len() implies s[i] == s.drop_first()[i - 1] by {}
    }
}

/// A singly linked list: the optional first node of an owned chain.
#[derive(Debug, PartialEq)]
pub struct SinglyLinkedList {
    pub first: Option<Box<Node>>,
}

impl View for SinglyLinkedList {
    type V = Seq<Seq<char>>;

    open spec fn view(&self) -> Seq<Seq<char>> {
        chain_view(self.first)
    }
}

impl SinglyLinkedList {
    pub fn new() -> (r: Self)
        ensures
            r@ == Seq::<Seq<char>>::empty(),
    {
        SinglyLinkedList { first: None }
    }

    pub fn is_empty(&self) -> (r: bool)
        ensures
            r == (self@.len() == 0),
    {
        self.first.is_none()
    }

    /// String equality by contents.
    fn str_eq(a: &str, b: &str) -> (r: bool)
        ensures
            r == (a@ == b@),
    {
        let left: String = a.to_owned();
        let right: String = b.to_owned();
        left == right
    }

    /// The last link of a chain, or `None` for an empty chain.
    fn last_of_chain(node: &Option<Box<Node>>) -> (r: Option<&Box<Node>>)
        ensures
            match r {
                Some(n) => chain_view(*node).len() > 0 && chain_view(Some(*n)) == chain_view(
                    *node,
                ).skip(chain_view(*node).len() - 1),
                None => chain_view(*node).len() == 0,
            },
        decreases node,
    {
        match node {
            None => None,
            Some(n) => {
                proof {
                    lemma_chain_view_unfold(*node);
                    lemma_chain_view_unfold(n.next);
                }
                if n.next.is_none() {
                    proof {
                        assert(chain_view(Some(*n)) =~= chain_view(*node).skip(
                            chain_view(*node).len() - 1,
                        ));
                    }
                    Some(n)
                } else {
                    let r = Self::last_of_chain(&n.next);
                    proof {
                        assert(chain_view(n.next).len() > 0);
                        assert(chain_view(n.next).skip(chain_view(n.next).len() - 1)
                            =~= chain_view(*node).skip(chain_view(*node).len() - 1));
                    }
                    r
                }
            },
        }
    }

    /// Finds the last node of the list: `None` when the list is empty, else
    /// the node holding the final data block.
    pub fn find_last_node(&self) -> (r: Option<&Box<Node>>)
        ensures
            match r {
                Some(n) => self@.len() > 0 && chain_view(Some(*n)) == self@.skip(self@.len() - 1),
                None => self@.len() == 0,
            },
    {
        Self::last_of_chain(&self.first)
    }

    /// The second-to-last link of a chain, or `None` for a chain shorter than
    /// two links.
    fn before_last_of_chain(node: &Option<Box<Node>>) -> (r: Option<&Box<Node>>)
        ensures
            match r {
                Some(n) => chain_view(*node).len() >= 2 && chain_view(Some(*n)) == chain_view(
                    *node,
                ).skip(chain_view(*node).len() - 2),
                None => chain_view(*node).len() < 2,
            },
        decreases node,
    {
        match node {
            None => None,
            Some(n) => {
                match &n.next {
                    None => None,
                    Some(next_node) => {
                        proof {
                            lemma_chain_view_unfold(*node);
                            lemma_chain_view_unfold(n.next);
                            lemma_chain_view_unfold(next_node.next);
                        }
                        if next_node.next.is_none() {
                            proof {
                                assert(chain_view(Some(*n)) =~= chain_view(*node).skip(
                                    chain_view(*node).len() - 2,
                                ));
                            }
                            Some(n)
                        } else {
                            let r = Self::before_last_of_chain(&n.next);
                            proof {
                                assert(chain_view(n.next).len() >= 2);
                                assert(chain_view(n.next).skip(chain_view(n.next).len() - 2)
                                    =~= chain_view(*node).skip(chain_view(*node).len() - 2));
                            }
                            r
                        }
                    },
                }
            },
        }
    }

    /// Finds the node before the last one: `None` when the list has fewer
    /// than two nodes.
    pub fn find_before_last(&self) -> (r: Option<&Box<Node>>)
        ensures
            match r {
                Some(n) => self@.len() >= 2 && chain_view(Some(*n)) == self@.skip(self@.len() - 2),
                None => self@.len() < 2,
            },
    {
        Self::before_last_of_chain(&self.first)
    }

    /// The first link holding `given_data`, or `None` when no link does.
    fn node_with_data<'a>(node: &'a Option<Box<Node>>, given_data: &str) -> (r: Option<
        &'a Box<Node>,
    >)
        ensures
            match r {
                Some(n) => index_of_data(chain_view(*node), given_data@) >= 0 && chain_view(
                    Some(*n),
                ) == chain_view(*node).skip(index_of_data(chain_view(*node), given_data@)),
                None => index_of_data(chain_view(*node), given_data@) == -1,
            },
        decreases node,
    {
        match node {
            None => None,
            Some(n) => {
                if Self::str_eq(n.data.as_str(), given_data) {
                    proof {
                        assert(index_of_data(chain_view(*node), given_data@) == 0);
                        assert(chain_view(Some(*n)) =~= chain_view(*node).skip(0));
                    }
                    Some(n)
                } else {
                    let r = Self::node_with_data(&n.next, given_data);
                    proof {
                        assert(chain_view(n.next) =~= chain_view(*node).drop_first());
                        let sub = index_of_data(chain_view(n.next), given_data@);
                        if sub >= 0 {
                            lemma_index_of_data(chain_view(n.next), given_data@);
                            assert(chain_view(n.next).skip(sub) =~= chain_view(*node).skip(
                                sub + 1,
                            ));
                        }
                    }
                    r
                }
            },
        }
    }

    /// Finds the first node holding `given_data`, or `None` when the data is
    /// not in the list.
    pub fn find_node(&self, given_data: &str) -> (r: Option<&Box<Node>>)
        ensures
            match r {
                Some(n) => index_of_data(self@, given_data@) >= 0 && chain_view(Some(*n))
                    == self@.skip(index_of_data(self@, given_data@)),
                None => index_of_data(self@, given_data@) == -1,
            },
    {
        Self::node_with_data(&self.first, given_data)
    }

    /// The link before the first one past the head that holds `given_data`,
    /// or `None` when no link past the head does.
    fn previous_of_chain<'a>(node: &'a Option<Box<Node>>, given_data: &str) -> (r: Option<
        &'a Box<Node>,
    >)
        ensures
            match r {
                Some(n) => index_of_data(rest_of(chain_view(*node)), given_data@) >= 0
                    && chain_view(Some(*n)) == chain_view(*node).skip(
                    index_of_data(rest_of(chain_view(*node)), given_data@),
                ),
                None => index_of_data(rest_of(chain_view(*node)), given_data@) == -1,
            },
        decreases node,
    {
        match node {
            None => None,
            Some(n) => {
                proof {
                    lemma_chain_view_unfold(*node);
                    lemma_chain_view_unfold(n.next);
                }
                match &n.next {
                    None => None,
                    Some(next_node) => {
                        if Self::str_eq(next_node.data.as_str(), given_data) {
                            proof {
                                assert(chain_view(n.next)[0] == next_node.data@);
                                assert(index_of_data(chain_view(n.next), given_data@) == 0);
                                assert(chain_view(Some(*n)) =~= chain_view(*node).skip(0));
                            }
                            Some(n)
                        } else {
                            let r = Self::previous_of_chain(&n.next, given_data);
                            proof {
                                let rest = chain_view(n.next);
                                assert(rest[0] == next_node.data@);
                                let sub = index_of_data(rest_of(rest), given_data@);
                                assert(rest_of(rest) == rest.drop_first());
                                if sub >= 0 {
                                    lemma_index_of_data(rest.drop_first(), given_data@);
                                    assert(index_of_data(rest, given_data@) == sub + 1);
                                    assert(rest.skip(sub) =~= chain_view(*node).skip(sub + 1));
                                }
                            }
                            r
                        }
                    },
                }
            },
        }
    }

    /// Finds the node standing before the first node past the head that holds
    /// `given_data`: `None` when the data occurs nowhere past the head, in
    /// particular when the list is empty or the data only sits at the head.
    pub fn find_previous_node(&self, given_data: &str) -> (r: Option<&Box<Node>>)
        ensures
            match r {
                Some(n) => index_of_data(rest_of(self@), given_data@) >= 0 && chain_view(Some(*n))
                    == self@.skip(index_of_data(rest_of(self@), given_data@)),
                None => index_of_data(rest_of(self@), given_data@) == -1,
            },
    {
        Self::previous_of_chain(&self.first, given_data)
    }

    /// Append a data block to the end of a chain.
    fn push_back_in_chain(node: &mut Option<Box<Node>>, data: &str)
        ensures
            chain_view(*final(node)) == chain_view(*old(node)).push(data@),
        decreases *old(node),
    {
        match node.take() {
            None => {
                *node = Some(Box::new(Node::new(data.to_owned())));
                proof {
                    assert(chain_view(*node) =~= chain_view(*old(node)).push(data@));
                }
            },
            Some(mut n) => {
                Self::push_back_in_chain(&mut n.next, data);
                *node = Some(n);
                proof {
                    assert(chain_view(*node) =~= chain_view(*old(node)).push(data@));
                }
            },
        }
    }

    /// Add a data block at the end of the list.
    pub fn append(&mut self, data: &str)
        ensures
            final(self)@ == old(self)@.push(data@),
    {
        Self::push_back_in_chain(&mut self.first, data);
    }

    /// Add a data block at the front of the list.
    pub fn prepend(&mut self, data: &str)
        ensures
            final(self)@ == seq![data@] + old(self)@,
    {
        let new_node = Box::new(Node::new_with_next(data.to_owned(), self.first.take()));
        self.first = Some(new_node);
    }

    /// Insert `data` right after the first occurrence of `given_data`.
    fn splice_after_in_chain(node: &mut Option<Box<Node>>, data: &str, given_data: &str)
        requires
            index_of_data(chain_view(*old(node)), given_data@) >= 0,
        ensures
            chain_view(*final(node)) == chain_view(*old(node)).insert(
                index_of_data(chain_view(*old(node)), given_data@) + 1,
                data@,
            ),
        decreases *old(node),
    {
        match node.take() {
            None => {
                *node = None;
            },
            Some(mut n) => {
                let ghost s = chain_view(*old(node));
                let ghost rest0 = chain_view(n.next);
                proof {
                    assert(s == seq![n.data@] + rest0);
                }
                if Self::str_eq(n.data.as_str(), given_data) {
                    let old_next = n.next.take();
                    let new_node = Box::new(Node::new_with_next(data.to_owned(), old_next));
                    n.next = Some(new_node);
                    *node = Some(n);
                    proof {
                        assert(index_of_data(s, given_data@) == 0);
                        assert(chain_view(*node) == seq![n.data@] + chain_view(n.next));
                        assert(chain_view(n.next) == seq![data@] + rest0);
                        assert(chain_view(*node) =~= s.insert(1, data@));
                    }
                } else {
                    proof {
                        assert(s.drop_first() =~= rest0);
                        assert(s[0] == n.data@);
                        assert(index_of_data(rest0, given_data@) >= 0);
                    }
                    Self::splice_after_in_chain(&mut n.next, data, given_data);
                    *node = Some(n);
                    proof {
                        let sub = index_of_data(rest0, given_data@);
                        lemma_index_of_data(rest0, given_data@);
                        assert(0 <= sub < rest0.len());
                        assert(chain_view(*node) == seq![n.data@] + chain_view(n.next));
                        assert(chain_view(*node) =~= s.insert(sub + 2, data@));
                    }
                }
            },
        }
    }

    /// Insert `data` right after the first node holding `given_data`. The
    /// list must hold `given_data`: inserting next to a data block that is
    /// not there is a caller error.
    pub fn insert_after_given(&mut self, data: &str, given_data: &str)
        requires
            index_of_data(old(self)@, given_data@) >= 0,
        ensures
            final(self)@ == old(self)@.insert(
                index_of_data(old(self)@, given_data@) + 1,
                data@,
            ),
    {
        Self::splice_after_in_chain(&mut self.first, data, given_data);
    }

    /// Insert `data` right before the first occurrence of `given_data` past
    /// the head.
    fn splice_before_in_chain(node: &mut Option<Box<Node>>, data: &str, given_data: &str)
        requires
            index_of_data(rest_of(chain_view(*old(node))), given_data@) >= 0,
        ensures
            chain_view(*final(node)) == chain_view(*old(node)).insert(
                index_of_data(rest_of(chain_view(*old(node))), given_data@) + 1,
                data@,
            ),
        decreases *old(node),
    {
        match node.take() {
            None => {
                *node = None;
            },
            Some(mut n) => {
                let ghost s = chain_view(*old(node));
                let ghost rest0 = chain_view(n.next);
                proof {
                    assert(s == seq![n.data@] + rest0);
                    assert(rest_of(s) =~= rest0);
                    lemma_chain_view_unfold(n.next);
                }
                let next_matches = match &n.next {
                    Some(next_node) => Self::str_eq(next_node.data.as_str(), given_data),
                    None => false,
                };
                if next_matches {
                    let old_next = n.next.take();
                    let new_node = Box::new(Node::new_with_next(data.to_owned(), old_next));
                    n.next = Some(new_node);
                    *node = Some(n);
                    proof {
                        assert(rest0[0] == given_data@);
                        assert(index_of_data(rest0, given_data@) == 0);
                        assert(chain_view(*node) == seq![n.data@] + chain_view(n.next));
                        assert(chain_view(n.next) == seq![data@] + rest0);
                        assert(chain_view(*node) =~= s.insert(1, data@));
                    }
                } else {
                    proof {
                        if n.next is None {
                            assert(rest0 =~= Seq::<Seq<char>>::empty());
                            assert(false);
                        }
                        assert(rest0[0] != given_data@);
                        assert(rest_of(rest0) =~= rest0.drop_first());
                        assert(index_of_data(rest_of(rest0), given_data@) >= 0);
                    }
                    Self::splice_before_in_chain(&mut n.next, data, given_data);
                    *node = Some(n);
                    proof {
                        let sub = index_of_data(rest_of(rest0), given_data@);
                        lemma_index_of_data(rest0.drop_first(), given_data@);
                        assert(0 <= sub < rest0.drop_first().len());
                        assert(index_of_data(rest0, given_data@) == sub + 1);
                        assert(chain_view(*node) == seq![n.data@] + chain_view(n.next));
                        assert(chain_view(*node) =~= s.insert(sub + 2, data@));
                    }
                }
            },
        }
    }

    /// Insert `data` right before the first node past the head that holds
    /// `given_data`. The data must occur past the head: inserting before a
    /// data block that is not there, or that only sits at the head, is a
    /// caller error.
    pub fn insert_before_given(&mut self, data: &str, given_data: &str)
        requires
            index_of_data(rest_of(old(self)@), given_data@) >= 0,
        ensures
            final(self)@ == old(self)@.insert(
                index_of_data(rest_of(old(self)@), given_data@) + 1,
                data@,
            ),
    {
        Self::splice_before_in_chain(&mut self.first, data, given_data);
    }

    /// Delete the first node. Deleting from an empty list is a caller error.
    pub fn delete_first(&mut self)
        requires
            old(self)@.len() > 0,
        ensures
            final(self)@ == old(self)@.drop_first(),
    {
        proof {
            lemma_chain_view_unfold(self.first);
        }
        let first = self.first.take().unwrap();
        let first_node = *first;
        self.first = first_node.next;
        proof {
            assert(chain_view(self.first) =~= old(self)@.drop_first());
        }
    }

    /// Cut the last link off a chain of at least two links.
    fn drop_last_in_chain(node: &mut Option<Box<Node>>)
        requires
            chain_view(*old(node)).len() >= 2,
        ensures
            chain_view(*final(node)) == chain_view(*old(node)).drop_last(),
        decreases *old(node),
    {
        match node.take() {
            None => {
                *node = None;
            },
            Some(mut n) => {
                let ghost s = chain_view(*old(node));
                let ghost rest0 = chain_view(n.next);
                proof {
                    assert(s == seq![n.data@] + rest0);
                    lemma_chain_view_unfold(n.next);
                }
                let cut_here = match &n.next {
                    Some(next_node) => next_node.next.is_none(),
                    None => false,
                };
                if cut_here {
                    proof {
                        lemma_chain_view_unfold(n.next.unwrap().next);
                        assert(rest0.len() == 1);
                    }
                    n.next = None;
                    *node = Some(n);
                    proof {
                        assert(chain_view(*node) =~= s.drop_last());
                    }
                } else {
                    proof {
                        if n.next is None {
                            assert(rest0 =~= Seq::<Seq<char>>::empty());
                            assert(false);
                        }
                        lemma_chain_view_unfold(n.next.unwrap().next);
                        assert(rest0.len() >= 2);
                    }
                    Self::drop_last_in_chain(&mut n.next);
                    *node = Some(n);
                    proof {
                        assert(chain_view(*node) == seq![n.data@] + chain_view(n.next));
                        assert(chain_view(*node) =~= s.drop_last());
                    }
                }
            },
        }
    }

    /// Delete the last node. The list must have at least two nodes: deleting
    /// the last node of an empty or single-node list is a caller error (the
    /// sole node of a one-node list is removed with `delete_first`).
    pub fn delete_last(&mut self)
        requires
            old(self)@.len() >= 2,
        ensures
            final(self)@ == old(self)@.drop_last(),
    {
        Self::drop_last_in_chain(&mut self.first);
    }

    /// Remove the node after the one holding the first occurrence of `data`
    /// past the head.
    fn remove_next_match(node: &mut Option<Box<Node>>, data: &str)
        requires
            index_of_data(chain_view(*old(node)), data@) >= 1,
        ensures
            chain_view(*final(node)) == chain_view(*old(node)).remove(
                index_of_data(chain_view(*old(node)), data@),
            ),
        decreases *old(node),
    {
        match node.take() {
            None => {
                *node = None;
            },
            Some(mut n) => {
                let ghost s = chain_view(*old(node));
                let ghost rest0 = chain_view(n.next);
                proof {
                    assert(s == seq![n.data@] + rest0);
                    assert(s.drop_first() =~= rest0);
                    lemma_chain_view_unfold(n.next);
                    if n.next is None {
                        assert(rest0 =~= Seq::<Seq<char>>::empty());
                        assert(index_of_data(rest0, data@) == -1);
                        assert(index_of_data(s, data@) < 1);
                        assert(false);
                    }
                }
                let next_matches = match &n.next {
                    Some(next_node) => Self::str_eq(next_node.data.as_str(), data),
                    None => false,
                };
                if next_matches {
                    let old_next = n.next.take();
                    proof {
                        lemma_chain_view_unfold(old_next);
                    }
                    let removed = old_next.unwrap();
                    let removed_node = *removed;
                    n.next = removed_node.next;
                    *node = Some(n);
                    proof {
                        assert(rest0[0] == data@);
                        assert(index_of_data(rest0, data@) == 0);
                        assert(index_of_data(s, data@) == 1);
                        assert(chain_view(*node) == seq![n.data@] + chain_view(n.next));
                        assert(chain_view(n.next) =~= rest0.drop_first());
                        assert(chain_view(*node) =~= s.remove(1));
                    }
                } else {
                    proof {
                        assert(rest0[0] != data@);
                        assert(index_of_data(rest0, data@) == index_of_data(s, data@) - 1);
                        assert(index_of_data(rest0, data@) >= 1) by {
                            if index_of_data(rest0, data@) == 0 {
                                lemma_index_of_data(rest0, data@);
                            }
                        }
                    }
                    Self::remove_next_match(&mut n.next, data);
                    *node = Some(n);
                    proof {
                        let sub = index_of_data(rest0, data@);
                        lemma_index_of_data(rest0, data@);
                        assert(0 <= sub < rest0.len());
                        assert(chain_view(*node) == seq![n.data@] + chain_view(n.next));
                        assert(chain_view(*node) =~= s.remove(sub + 1));
                    }
                }
            },
        }
    }

    /// Delete by value: the list is scanned for the first node holding
    /// `data`. When that node is the head, the whole list is cleared; when it
    /// sits anywhere later, only that node is removed and the remaining nodes
    /// keep their order. The data must be present: deleting a data block that
    /// is not in the list is a caller error.
    pub fn delete_node_with_data(&mut self, data: &str)
        requires
            index_of_data(old(self)@, data@) >= 0,
        ensures
            index_of_data(old(self)@, data@) == 0 ==> final(self)@ == Seq::<Seq<char>>::empty(),
            index_of_data(old(self)@, data@) > 0 ==> final(self)@ == old(self)@.remove(
                index_of_data(old(self)@, data@),
            ),
    {
        proof {
            lemma_chain_view_unfold(self.first);
        }
        let head_matches = match &self.first {
            Some(n) => Self::str_eq(n.data.as_str(), data),
            None => false,
        };
        if head_matches {
            self.first = None;
        } else {
            proof {
                assert(old(self)@[0] != data@);
            }
            Self::remove_next_match(&mut self.first, data);
        }
    }
}

} // verus!
