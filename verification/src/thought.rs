use vstd::prelude::*;

verus! {

/// What a thought holds, as sequences of characters.
pub struct ThoughtView {
    pub contents: Seq<char>,
    pub title: Seq<char>,
}

/// A thought: a title and what it says.
pub struct Thought {
    pub contents: String,
    pub title: String,
}

impl View for Thought {
    type V = ThoughtView;

    open spec fn view(&self) -> ThoughtView {
        ThoughtView { contents: self.contents@, title: self.title@ }
    }
}

impl Thought {
    /// A thought with the given title and nothing written in it yet.
    pub fn new(title: String) -> (t: Self)
        ensures
            t.title@ == title@,
            t.contents@ == Seq::<char>::empty(),
    {
        Self { title, contents: String::new() }
    }
}

impl Clone for Thought {
    /// A copy of the thought, with the same title and contents.
    fn clone(&self) -> (t: Self)
        ensures
            t == *self,
    {
        Thought { contents: self.contents.clone(), title: self.title.clone() }
    }
}

} // verus!
