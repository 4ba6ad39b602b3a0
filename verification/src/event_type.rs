//! The names under which the events of a type are recorded.
//!
//! An event type is named after its type, unless it names itself; each
//! variant of an event enum is named `base::variant`, where `variant` is
//! the variant's own name unless it names itself.

use vstd::prelude::*;

use vstd::string::StringExecFns;

verus! {

/// A variant of an event enum: its identifier and the name it gives itself,
/// if any.
#[derive(Clone, Debug)]
pub struct EventVariant {
    pub ident: String,
    pub event_type: Option<String>,
}

/// The shape of an event type as the event derive sees it.
#[derive(Clone, Debug)]
pub struct EventShape {
    /// The type's identifier.
    pub ident: String,
    /// The name the type gives itself, if any.
    pub event_type: Option<String>,
    /// The variants, when the type is an enum.
    pub variants: Option<Vec<EventVariant>>,
}

/// A name if one is given, else the identifier.
pub open spec fn chosen_name(ident: Seq<char>, given: Option<String>) -> Seq<char> {
    match given {
        Some(n) => n@,
        None => ident,
    }
}

/// The name of a variant of an event enum whose base name is `base`.
pub open spec fn variant_name(base: Seq<char>, v: EventVariant) -> Seq<char> {
    base + "::"@ + chosen_name(v.ident@, v.event_type)
}

/// Every name under which events of the type `shape` are recorded, in the
/// order of its variants.
pub open spec fn event_names(shape: EventShape) -> Seq<Seq<char>> {
    let base = chosen_name(shape.ident@, shape.event_type);
    match shape.variants {
        None => seq![base],
        Some(vs) => Seq::new(vs@.len(), |i: int| variant_name(base, vs@[i])),
    }
}

fn chosen(ident: &String, given: &Option<String>) -> (r: String)
    ensures
        r@ == chosen_name(ident@, *given),
{
    match given {
        Some(n) => n.clone(),
        None => ident.clone(),
    }
}

impl EventShape {
    /// The name of the type itself: the one it gives itself, else its
    /// identifier.
    pub fn base_event_type(&self) -> (r: String)
        ensures
            r@ == chosen_name(self.ident@, self.event_type),
    {
        chosen(&self.ident, &self.event_type)
    }

    /// The name of one variant, `base::variant`.
    pub fn variant_event_type(&self, v: &EventVariant) -> (r: String)
        ensures
            r@ == variant_name(chosen_name(self.ident@, self.event_type), *v),
    {
        let mut name = self.base_event_type();
        name.append("::");
        let own = chosen(&v.ident, &v.event_type);
        name.append(own.as_str());
        name
    }

    /// Every name under which events of this type are recorded: the base
    /// name for a struct, one name per variant for an enum.
    pub fn all_event_types(&self) -> (r: Vec<String>)
        ensures
            r@.len() == event_names(*self).len(),
            forall|i: int| 0 <= i < r@.len() ==> #[trigger] r@[i]@ == event_names(*self)[i],
    {
        match &self.variants {
            None => {
                let mut out: Vec<String> = Vec::new();
                out.push(self.base_event_type());
                out
            },
            Some(vs) => {
                let mut out: Vec<String> = Vec::new();
                let mut i: usize = 0;
                while i < vs.len()
                    invariant
                        self.variants == Some(*vs),
                        i <= vs@.len(),
                        out@.len() == i,
                        forall|j: int|
                            0 <= j < i ==> #[trigger] out@[j]@ == event_names(*self)[j],
                    decreases vs@.len() - i,
                {
                    out.push(self.variant_event_type(&vs[i]));
                    i = i + 1;
                }
                out
            },
        }
    }
}

} // verus!
