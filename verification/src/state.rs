//! A discrete state of a function block.

use vstd::prelude::*;

use crate::strutil::push_dv;

verus! {

/// Mathematical form of a state.
pub ghost struct StateView {
    pub id: Seq<char>,
    pub name: Option<Seq<char>>,
    pub transitions_out: Seq<Seq<char>>,
    pub transitions_in: Seq<Seq<char>>,
}

/// One discrete state of a function block, with the ids of its
/// outgoing and incoming transitions.
pub struct State {
    pub id: String,
    pub name: Option<String>,
    pub transitions_out: Vec<String>,
    pub transitions_in: Vec<String>,
}

impl View for State {
    type V = StateView;

    open spec fn view(&self) -> StateView {
        StateView {
            id: self.id@,
            name: match self.name {
                Some(n) => Some(n@),
                None => None,
            },
            transitions_out: self.transitions_out.deep_view(),
            transitions_in: self.transitions_in.deep_view(),
        }
    }
}

impl DeepView for State {
    type V = StateView;

    open spec fn deep_view(&self) -> StateView {
        self.view()
    }
}

/// Clone a list of strings, keeping the element views.
pub fn clone_string_vec(v: &Vec<String>) -> (r: Vec<String>)
    ensures
        r.deep_view() == v.deep_view(),
{
    let mut r: Vec<String> = Vec::new();
    let n = v.len();
    let mut i: usize = 0;
    proof {
        assert(v.deep_view().take(0) =~= Seq::<Seq<char>>::empty());
        assert(r.deep_view() =~= Seq::<Seq<char>>::empty());
    }
    while i < n
        invariant
            i <= n,
            n == v.len(),
            r.deep_view() == v.deep_view().take(i as int),
        decreases n - i,
    {
        proof {
            assert(v.deep_view().take(i as int).len() == i);
            assert(r.deep_view().len() == r@.len());
            assert(v.deep_view().len() == v@.len());
        }
        let c = v[i].clone();
        proof {
            assert(c.deep_view() == v.deep_view()[i as int]);
        }
        push_dv(&mut r, c);
        proof {
            assert(r.deep_view() =~= v.deep_view().take(i + 1));
        }
        i = i + 1;
    }
    proof {
        assert(v.deep_view().take(n as int) =~= v.deep_view());
    }
    r
}

impl Clone for State {
    fn clone(&self) -> (r: Self)
        ensures
            r@ == self@,
    {
        State {
            id: self.id.clone(),
            name: match &self.name {
                Some(n) => Some(n.clone()),
                None => None,
            },
            transitions_out: clone_string_vec(&self.transitions_out),
            transitions_in: clone_string_vec(&self.transitions_in),
        }
    }
}

impl State {
    pub fn new(id: String) -> (r: Self)
        ensures
            r@ == (StateView {
                id: id@,
                name: None,
                transitions_out: Seq::empty(),
                transitions_in: Seq::empty(),
            }),
    {
        let r = State { id, name: None, transitions_out: Vec::new(), transitions_in: Vec::new() };
        proof {
            assert(r.transitions_out.deep_view() =~= Seq::<Seq<char>>::empty());
            assert(r.transitions_in.deep_view() =~= Seq::<Seq<char>>::empty());
        }
        r
    }
}

} // verus!
