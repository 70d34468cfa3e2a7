//! Paths as sequences of components.
//!
//! A search directory, a difference and an archive key all name a path below
//! every replica root. The logic compares paths by whole components (`a/b` is
//! inside `a`, `a/bc` is not), takes parents and joins names, so a path is
//! held as its list of components, with a flag for a leading `/`.
use vstd::prelude::*;

verus! {

/// A path as its components; `absolute` is set when it starts at `/`.
/// The empty relative path denotes a replica root itself.
#[derive(Debug)]
pub struct TreePath {
    pub absolute: bool,
    pub components: Vec<String>,
}

/// The components of a path, each as its characters.
pub open spec fn parts_of(components: Seq<String>) -> Seq<Seq<char>> {
    components.map_values(|c: String| c@)
}

/// The components joined with `/`.
pub open spec fn join_parts(p: Seq<Seq<char>>) -> Seq<char>
    decreases p.len(),
{
    if p.len() == 0 {
        Seq::empty()
    } else if p.len() == 1 {
        p[0]
    } else {
        join_parts(p.drop_last()) + seq!['/'] + p.last()
    }
}

/// The textual form of a path.
pub open spec fn path_text(absolute: bool, p: Seq<Seq<char>>) -> Seq<char> {
    if absolute {
        seq!['/'] + join_parts(p)
    } else {
        join_parts(p)
    }
}

/// `base` names `path` itself or one of its ancestors: the same kind of
/// path, and its components a prefix of those of `path`.
pub open spec fn path_starts_with(
    path_abs: bool,
    path: Seq<Seq<char>>,
    base_abs: bool,
    base: Seq<Seq<char>>,
) -> bool {
    &&& path_abs == base_abs
    &&& base.len() <= path.len()
    &&& path.subrange(0, base.len() as int) == base
}

proof fn lemma_parts_push(s: Seq<String>, x: String)
    ensures
        parts_of(s.push(x)) == parts_of(s).push(x@),
{
    assert(parts_of(s.push(x)) =~= parts_of(s).push(x@));
}

impl TreePath {
    pub open spec fn parts(&self) -> Seq<Seq<char>> {
        parts_of(self.components@)
    }

    pub open spec fn text(&self) -> Seq<char> {
        path_text(self.absolute, self.parts())
    }

    pub open spec fn inside(&self, base: &TreePath) -> bool {
        path_starts_with(self.absolute, self.parts(), base.absolute, base.parts())
    }

    pub open spec fn same_path(&self, other: &TreePath) -> bool {
        self.absolute == other.absolute && self.parts() == other.parts()
    }

    /// The empty relative path: a replica root itself.
    pub fn root() -> (r: TreePath)
        ensures
            !r.absolute,
            r.parts() == Seq::<Seq<char>>::empty(),
    {
        let r = TreePath { absolute: false, components: Vec::new() };
        assert(r.parts() =~= Seq::<Seq<char>>::empty());
        r
    }

    /// A relative path from its components.
    pub fn relative(components: Vec<String>) -> (r: TreePath)
        ensures
            !r.absolute,
            r.components@ == components@,
    {
        TreePath { absolute: false, components }
    }

    pub fn is_absolute(&self) -> (r: bool)
        ensures
            r == self.absolute,
    {
        self.absolute
    }

    /// A copy with the same components.
    pub fn copied(&self) -> (r: TreePath)
        ensures
            r.same_path(self),
    {
        let mut components: Vec<String> = Vec::new();
        let mut i: usize = 0;
        while i < self.components.len()
            invariant
                i <= self.components.len(),
                parts_of(components@) == self.parts().take(i as int),
            decreases self.components.len() - i,
        {
            let ghost before = components@;
            components.push(self.components[i].clone());
            assert(components@ == before.push(self.components@[i as int]));
            proof {
                lemma_parts_push(before, self.components@[i as int]);
            }
            assert(parts_of(components@) =~= self.parts().take(i + 1));
            i = i + 1;
        }
        assert(self.parts().take(i as int) =~= self.parts());
        TreePath { absolute: self.absolute, components }
    }

    /// The path of the child `name` of this path.
    pub fn join(&self, name: &str) -> (r: TreePath)
        ensures
            r.absolute == self.absolute,
            r.parts() == self.parts().push(name@),
    {
        let mut r = self.copied();
        r.components.push(name.to_owned());
        assert(r.parts() =~= self.parts().push(name@));
        r
    }

    /// The parent of this path, or `None` for a root.
    pub fn parent(&self) -> (r: Option<TreePath>)
        ensures
            self.parts().len() == 0 <==> r is None,
            r is Some ==> r->0.absolute == self.absolute && r->0.parts() == self.parts().drop_last(),
    {
        if self.components.len() == 0 {
            None
        } else {
            let mut r = self.copied();
            r.components.pop();
            assert(r.parts() =~= self.parts().drop_last());
            Some(r)
        }
    }

    /// True when `base` is this path or one of its ancestors, comparing
    /// whole components.
    pub fn starts_with(&self, base: &TreePath) -> (r: bool)
        ensures
            r == self.inside(base),
    {
        if self.absolute != base.absolute || base.components.len() > self.components.len() {
            return false;
        }
        let mut i: usize = 0;
        while i < base.components.len()
            invariant
                base.components.len() <= self.components.len(),
                i <= base.components.len(),
                forall|j: int| 0 <= j < i ==> self.parts()[j] == base.parts()[j],
            decreases base.components.len() - i,
        {
            if self.components[i] != base.components[i] {
                assert(self.parts().subrange(0, base.parts().len() as int)[i as int]
                    != base.parts()[i as int]);
                return false;
            }
            i = i + 1;
        }
        assert(self.parts().subrange(0, base.parts().len() as int) =~= base.parts());
        true
    }

    /// True when both name one path.
    pub fn equals(&self, other: &TreePath) -> (r: bool)
        ensures
            r == self.same_path(other),
    {
        let r = self.components.len() == other.components.len() && self.starts_with(other);
        proof {
            assert(self.parts().len() == self.components@.len());
            assert(other.parts().len() == other.components@.len());
            if self.parts().len() == other.parts().len() {
                assert(self.parts() =~= self.parts().subrange(0, other.parts().len() as int));
            }
        }
        r
    }

    /// The textual form: components joined with `/`, after a leading `/`
    /// for an absolute path.
    pub fn to_text(&self) -> (r: String)
        ensures
            r@ == self.text(),
    {
        proof {
            reveal_strlit("/");
        }
        let mut r = if self.absolute {
            String::from_str("/")
        } else {
            String::new()
        };
        let ghost lead: Seq<char> = if self.absolute {
            seq!['/']
        } else {
            Seq::empty()
        };
        let mut i: usize = 0;
        while i < self.components.len()
            invariant
                i <= self.components.len(),
                r@ == lead + join_parts(self.parts().take(i as int)),
            decreases self.components.len() - i,
        {
            let ghost before = r@;
            proof {
                reveal_strlit("/");
            }
            if i > 0 {
                r.append("/");
            }
            r.append(self.components[i].as_str());
            proof {
                let t = self.parts().take(i + 1);
                let c = self.components@[i as int]@;
                assert(t.drop_last() =~= self.parts().take(i as int));
                assert(t.last() == c);
                if i == 0 {
                    assert(join_parts(self.parts().take(0)) =~= Seq::<char>::empty());
                    assert(join_parts(t) == c);
                    assert(r@ =~= lead + join_parts(t));
                } else {
                    assert(r@ == before + seq!['/'] + c);
                    assert(join_parts(t) == join_parts(self.parts().take(i as int)) + seq!['/'] + c);
                    assert(r@ =~= lead + join_parts(t));
                }
            }
            i = i + 1;
        }
        assert(self.parts().take(i as int) =~= self.parts());
        r
    }
}

} // verus!
