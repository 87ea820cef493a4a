//! Filesystem paths as sequences of name components.
//!
//! A [`ConfigPath`] is a list of components, root-relative; the empty path is
//! the root itself. Components are opaque names: the library never parses
//! separators out of them, so a path's length is exactly the number of `join`
//! steps that built it.

use vstd::prelude::*;

verus! {

/// A path on the modelled filesystem: a sequence of name components.
/// The empty path denotes the root directory.
#[derive(Debug, PartialEq, Eq)]
pub struct ConfigPath {
    pub components: Vec<String>,
}

impl View for ConfigPath {
    type V = Seq<Seq<char>>;

    open spec fn view(&self) -> Seq<Seq<char>> {
        self.components.deep_view()
    }
}

/// True when `q` is a prefix of `p` (possibly all of `p`).
pub open spec fn is_prefix_of(q: Seq<Seq<char>>, p: Seq<Seq<char>>) -> bool {
    q.len() <= p.len() && p.subrange(0, q.len() as int) == q
}

/// True when `q` is a strict prefix of `p` (an ancestor of `p`).
pub open spec fn is_strict_prefix_of(q: Seq<Seq<char>>, p: Seq<Seq<char>>) -> bool {
    q.len() < p.len() && p.subrange(0, q.len() as int) == q
}

/// The parent of a non-empty path: all components but the last.
pub open spec fn parent_of(p: Seq<Seq<char>>) -> Seq<Seq<char>> {
    p.drop_last()
}

impl Clone for ConfigPath {
    fn clone(&self) -> (res: Self)
        ensures
            res@ == self@,
    {
        let r = ConfigPath { components: copy_components(&self.components, self.components.len()) };
        assert(r@ =~= self@);
        r
    }
}

/// Copies the first `n` elements of a component vector.
fn copy_components(src: &Vec<String>, n: usize) -> (r: Vec<String>)
    requires
        n <= src@.len(),
    ensures
        r.deep_view() == src.deep_view().subrange(0, n as int),
{
    let mut components: Vec<String> = Vec::new();
    let mut i: usize = 0;
    while i < n
        invariant
            i <= n <= src@.len(),
            components@.len() == i,
            components.deep_view() == src.deep_view().subrange(0, i as int),
        decreases n - i,
    {
        let ghost pre = components.deep_view();
        components.push(src[i].clone());
        assert forall|j: int| 0 <= j < i + 1 implies components.deep_view()[j]
            == src.deep_view().subrange(0, i + 1)[j] by {
            if j < i {
                assert(components.deep_view()[j] == pre[j]);
            } else {
                assert(components@[j] == src@[i as int]);
            }
        }
        assert(components.deep_view() =~= src.deep_view().subrange(0, i + 1));
        i += 1;
    }
    assert(components.deep_view() =~= src.deep_view().subrange(0, n as int));
    components
}

impl ConfigPath {
    /// The root path, with no components.
    pub fn empty() -> (r: ConfigPath)
        ensures
            r@ == Seq::<Seq<char>>::empty(),
    {
        let r = ConfigPath { components: Vec::new() };
        assert(r@ =~= Seq::<Seq<char>>::empty());
        r
    }

    /// Extends the path by one trailing component.
    pub fn join(self, name: &str) -> (r: ConfigPath)
        ensures
            r@ == self@.push(name@),
    {
        let mut components = self.components;
        components.push(name.to_owned());
        let r = ConfigPath { components };
        assert(r@ =~= self@.push(name@));
        r
    }

    /// Extends the path by one trailing component, given as a `String`.
    pub fn join_string(self, name: &String) -> (r: ConfigPath)
        ensures
            r@ == self@.push(name@),
    {
        let mut components = self.components;
        components.push(name.clone());
        let r = ConfigPath { components };
        assert(r@ =~= self@.push(name@));
        r
    }

    /// The number of components.
    pub fn len(&self) -> (r: usize)
        ensures
            r == self@.len(),
    {
        self.components.len()
    }

    /// The last component of a non-empty path.
    pub fn basename(&self) -> (r: &String)
        requires
            self@.len() > 0,
        ensures
            r@ == self@.last(),
    {
        &self.components[self.components.len() - 1]
    }

    /// The path with the last component removed.
    pub fn parent(&self) -> (r: ConfigPath)
        requires
            self@.len() > 0,
        ensures
            r@ == parent_of(self@),
    {
        let r = ConfigPath {
            components: copy_components(&self.components, self.components.len() - 1),
        };
        assert(r@ =~= parent_of(self@));
        r
    }

    /// Component-wise equality of two paths.
    pub fn path_eq(&self, other: &ConfigPath) -> (r: bool)
        ensures
            r == (self@ == other@),
    {
        if self.components.len() != other.components.len() {
            assert(self@.len() != other@.len());
            return false;
        }
        let mut i: usize = 0;
        while i < self.components.len()
            invariant
                i <= self.components.len(),
                self@.len() == other@.len(),
                forall|j: int| 0 <= j < i ==> self@[j] == other@[j],
            decreases self.components.len() - i,
        {
            if !self.components[i].eq(&other.components[i]) {
                assert(self@[i as int] != other@[i as int]);
                return false;
            }
            i += 1;
        }
        assert(self@ =~= other@);
        true
    }

    /// True when `self` is a strict prefix (an ancestor) of `p`.
    pub fn is_ancestor_of(&self, p: &ConfigPath) -> (r: bool)
        ensures
            r == is_strict_prefix_of(self@, p@),
    {
        if self.components.len() >= p.components.len() {
            return false;
        }
        let mut i: usize = 0;
        while i < self.components.len()
            invariant
                i <= self.components.len(),
                self@.len() < p@.len(),
                forall|j: int| 0 <= j < i ==> self@[j] == p@[j],
            decreases self.components.len() - i,
        {
            if !self.components[i].eq(&p.components[i]) {
                assert(self@[i as int] != p@[i as int]);
                return false;
            }
            i += 1;
        }
        assert(p@.subrange(0, self@.len() as int) =~= self@);
        true
    }

    /// The prefix of the path keeping the first `n` components.
    pub fn prefix(&self, n: usize) -> (r: ConfigPath)
        requires
            n <= self@.len(),
        ensures
            r@ == self@.subrange(0, n as int),
    {
        ConfigPath { components: copy_components(&self.components, n) }
    }
}

} // verus!
