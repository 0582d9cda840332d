use vstd::prelude::*;

verus! {

/// A named workspace and the windows on it, each listed once.
#[derive(Clone, Debug)]
pub struct Workspace {
    pub index: usize,
    pub name: String,
    pub windows: Vec<isize>,
}

impl Default for Workspace {
    fn default() -> (w: Self)
        ensures
            w.index == 0,
            w.name@ == Seq::<char>::empty(),
            w.windows@ == Seq::<isize>::empty(),
    {
        Workspace { index: 0, name: String::new(), windows: Vec::new() }
    }
}

impl Workspace {
    pub fn new(index: usize, name: &str) -> (w: Self)
        ensures
            w.index == index,
            w.name@ == name@,
            w.windows@ == Seq::<isize>::empty(),
    {
        Workspace { index, name: name.to_string(), windows: Vec::new() }
    }

    /// Add a window unless it is already listed.
    pub fn add_window(&mut self, hwnd: isize)
        ensures
            final(self).index == old(self).index,
            final(self).name == old(self).name,
            final(self).windows@ == if old(self).windows@.contains(hwnd) {
                old(self).windows@
            } else {
                old(self).windows@.push(hwnd)
            },
    {
        if !vec_contains(&self.windows, hwnd) {
            self.windows.push(hwnd);
        }
    }

    /// Remove every occurrence of a window, keeping the order of the others.
    pub fn remove_window(&mut self, hwnd: isize)
        ensures
            final(self).index == old(self).index,
            final(self).name == old(self).name,
            final(self).windows@ == without_item(old(self).windows@, hwnd),
    {
        let kept = vec_without(&self.windows, hwnd);
        self.windows = kept;
    }
}

/// Whether `v` holds `x`.
pub fn vec_contains(v: &Vec<isize>, x: isize) -> (r: bool)
    ensures
        r == v@.contains(x),
{
    let mut i: usize = 0;
    while i < v.len()
        invariant
            i <= v@.len(),
            forall|j: int| 0 <= j < i ==> v@[j] != x,
        decreases v@.len() - i,
    {
        if v[i] == x {
            assert(v@[i as int] == x);
            return true;
        }
        i += 1;
    }
    false
}

/// `s` without any `x`, order kept.
pub open spec fn without_item(s: Seq<isize>, x: isize) -> Seq<isize>
    decreases s.len(),
{
    if s.len() == 0 {
        s
    } else if s.last() == x {
        without_item(s.drop_last(), x)
    } else {
        without_item(s.drop_last(), x).push(s.last())
    }
}

/// `v` without any `x`, order kept.
pub fn vec_without(v: &Vec<isize>, x: isize) -> (r: Vec<isize>)
    ensures
        r@ == without_item(v@, x),
{
    let mut out: Vec<isize> = Vec::new();
    let mut i: usize = 0;
    while i < v.len()
        invariant
            i <= v@.len(),
            out@ == without_item(v@.take(i as int), x),
        decreases v@.len() - i,
    {
        assert(v@.take(i + 1).drop_last() =~= v@.take(i as int));
        if v[i] != x {
            out.push(v[i]);
        }
        i += 1;
    }
    assert(v@.take(v@.len() as int) =~= v@);
    out
}

} // verus!
