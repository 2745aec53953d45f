use vstd::prelude::*;

verus! {

/// A filesystem path, represented as its sequence of components.
/// A component never contains a path separator; splitting a textual
/// path into components is the caller's concern.
#[derive(Debug, PartialEq, Eq)]
pub struct PathBuf {
    pub components: Vec<String>,
}

impl View for PathBuf {
    type V = Seq<Seq<char>>;

    open spec fn view(&self) -> Seq<Seq<char>> {
        Seq::new(self.components@.len(), |i: int| self.components@[i]@)
    }
}

impl Clone for PathBuf {
    fn clone(&self) -> (res: Self)
        ensures
            res@ == self@,
    {
        let mut components: Vec<String> = Vec::new();
        let mut i: usize = 0;
        while i < self.components.len()
            invariant
                i <= self.components@.len(),
                components@.len() == i as int,
                forall|j: int| 0 <= j < i as int ==> components@[j]@ == self.components@[j]@,
            decreases self.components@.len() - i,
        {
            components.push(self.components[i].clone());
            i = i + 1;
        }
        let res = PathBuf { components };
        proof {
            assert(res@ =~= self@);
        }
        res
    }
}

impl PathBuf {
    /// The empty path.
    pub fn new() -> (r: PathBuf)
        ensures
            r@ == Seq::<Seq<char>>::empty(),
    {
        let r = PathBuf { components: Vec::new() };
        proof {
            assert(r@ =~= Seq::<Seq<char>>::empty());
        }
        r
    }

    /// The path extended by one further component.
    pub fn child(&self, component: &String) -> (r: PathBuf)
        ensures
            r@ == self@.push(component@),
    {
        let mut r = self.clone();
        r.components.push(component.clone());
        proof {
            assert(r@ =~= self@.push(component@));
        }
        r
    }

    /// Whether two paths consist of equal components.
    pub fn path_eq(&self, other: &PathBuf) -> (r: bool)
        ensures
            r == (self@ == other@),
    {
        if self.components.len() != other.components.len() {
            proof {
                assert(self@.len() != other@.len());
            }
            return false;
        }
        let mut i: usize = 0;
        while i < self.components.len()
            invariant
                i <= self.components@.len(),
                self.components@.len() == other.components@.len(),
                forall|j: int| 0 <= j < i as int ==> self@[j] == other@[j],
            decreases self.components@.len() - i,
        {
            if !(self.components[i] == other.components[i]) {
                proof {
                    assert(self@[i as int] != other@[i as int]);
                }
                return false;
            }
            i = i + 1;
        }
        proof {
            assert(self@ =~= other@);
        }
        true
    }
}

/// Builds the path holding the components of `parts` from index `from` on.
pub fn join(parts: &Vec<String>, from: usize) -> (r: PathBuf)
    requires
        from <= parts@.len(),
    ensures
        r@ == Seq::new((parts@.len() - from) as nat, |i: int| parts@[from + i]@),
{
    let mut components: Vec<String> = Vec::new();
    let mut i: usize = from;
    while i < parts.len()
        invariant
            from <= i <= parts@.len(),
            components@.len() == i - from,
            forall|j: int| 0 <= j < i - from ==> components@[j]@ == parts@[from + j]@,
        decreases parts@.len() - i,
    {
        components.push(parts[i].clone());
        i = i + 1;
    }
    let r = PathBuf { components };
    proof {
        assert(r@ =~= Seq::new((parts@.len() - from) as nat, |i: int| parts@[from + i]@));
    }
    r
}

} // verus!
