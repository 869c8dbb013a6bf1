use vstd::prelude::*;

verus! {

/// One selectable entry: what is printed on selection, what is shown and
/// matched, and an icon (empty when there is none).
pub struct Choice {
    pub value: String,
    pub name: String,
    pub icon: String,
}

/// A choice as three character sequences.
pub struct ChoiceView {
    pub value: Seq<char>,
    pub name: Seq<char>,
    pub icon: Seq<char>,
}

impl View for Choice {
    type V = ChoiceView;

    open spec fn view(&self) -> ChoiceView {
        ChoiceView { value: self.value@, name: self.name@, icon: self.icon@ }
    }
}

/// The views of a sequence of choices.
pub open spec fn views(v: Seq<Choice>) -> Seq<ChoiceView> {
    v.map_values(|c: Choice| c@)
}

/// The views of a sequence of strings.
pub open spec fn texts(v: Seq<String>) -> Seq<Seq<char>> {
    v.map_values(|s: String| s@)
}

/// A choice whose name and value are both `line`, with no icon.
pub open spec fn plain_choice(line: Seq<char>) -> ChoiceView {
    ChoiceView { value: line, name: line, icon: Seq::empty() }
}

impl Choice {
    /// A choice from its three parts.
    pub fn new(value: String, name: String, icon: String) -> (r: Choice)
        ensures
            r@ == (ChoiceView { value: value@, name: name@, icon: icon@ }),
    {
        Choice { value, name, icon }
    }

    /// A choice whose name and value are both `line`, with no icon.
    pub fn plain(line: String) -> (r: Choice)
        ensures
            r@ == plain_choice(line@),
    {
        Choice { name: line.clone(), value: line, icon: String::new() }
    }

    /// A copy of this choice.
    pub fn duplicate(&self) -> (r: Choice)
        ensures
            r@ == self@,
    {
        Choice { value: self.value.clone(), name: self.name.clone(), icon: self.icon.clone() }
    }
}

} // verus!
