//! A person with a first and a last name, greeted by the demo program.

use vstd::prelude::*;
use vstd::string::StringExecFns;

use crate::parser::push_char;

verus! {

/// Mathematical model of a person: the two name parts.
pub struct PersonView {
    pub first: Seq<char>,
    pub last: Seq<char>,
}

pub struct Person {
    first: String,
    last: String,
}

impl View for Person {
    type V = PersonView;

    closed spec fn view(&self) -> PersonView {
        PersonView { first: self.first@, last: self.last@ }
    }
}

impl Person {
    pub fn new(first: &str, last: &str) -> (person: Person)
        ensures
            person@.first == first@,
            person@.last == last@,
    {
        Person { first: first.to_owned(), last: last.to_owned() }
    }

    /// The full name: the first name, a space, the last name.
    pub fn name(&self) -> (r: String)
        ensures
            r@ == self@.first + seq![' '] + self@.last,
    {
        let mut r = self.first.clone();
        push_char(&mut r, ' ');
        r.append(self.last.as_str());
        proof {
            assert(self.first@.push(' ') + self.last@ =~= self.first@ + seq![' ']
                + self.last@);
        }
        r
    }
}

} // verus!
