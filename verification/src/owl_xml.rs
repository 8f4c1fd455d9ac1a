//! OWL/XML read as a stream of XML events: the decisions that turn the
//! events into subclass and class assertion axioms. The reader of the
//! events feeds them in, one at a time.

use vstd::prelude::*;
use std::sync::Arc;
use crate::iri::IRI;
use crate::error::{OwlError, OwlResult};
use crate::entities::Class;
use crate::class_expression::{ClassExpression, ExprView};
use crate::axioms::{Axiom, SubClassOfAxiom, ClassAssertionAxiom};
use crate::binary_format::{AxiomKey, axiom_key};
use crate::text::{has_suffix, str_eq, ends_with_chars, str_chars, push_str, string_from_chars};

verus! {

/// An element tag: its name (absent when not UTF-8) and its attributes as
/// key and unescaped value (each absent when it could not be decoded).
#[derive(Debug)]
pub struct XmlTag {
    pub name: Option<String>,
    pub attributes: Vec<(Option<String>, Option<String>)>,
}

/// One XML event, as the reader reports it.
#[derive(Debug)]
pub enum OwlXmlEvent {
    /// An opening tag, with the number of bytes the reader took for it.
    Start(XmlTag, usize),
    /// A self-closing tag.
    Empty(XmlTag),
    /// A closing tag, by name.
    End(Option<String>),
    /// Text, with its length in bytes.
    Text(usize),
    /// The end of the input.
    Eof,
    /// A reader error, with its description.
    Error(String),
    /// Any other event.
    Other,
}

/// An optional text by its view.
pub open spec fn opt_view(o: Option<String>) -> Option<Seq<char>> {
    match o {
        Some(s) => Some(s@),
        None => None,
    }
}

/// The attributes by their views.
pub open spec fn attr_views(v: Seq<(Option<String>, Option<String>)>) -> Seq<(Option<Seq<char>>, Option<Seq<char>>)> {
    v.map_values(|a: (Option<String>, Option<String>)| (opt_view(a.0), opt_view(a.1)))
}

/// A key that names the referenced IRI: `about` or `IRI`, possibly with a
/// namespace prefix.
pub open spec fn is_reference_key(k: Seq<char>) -> bool {
    has_suffix(k, "about"@) || has_suffix(k, "IRI"@)
}

/// The value of the first decodable attribute whose key names the
/// referenced IRI, from position `i` on.
pub open spec fn reference_from(attrs: Seq<(Option<Seq<char>>, Option<Seq<char>>)>, i: int) -> Option<Seq<char>>
    decreases attrs.len() - i,
{
    if i >= attrs.len() || i < 0 {
        None
    } else {
        match attrs[i] {
            (Some(k), Some(v)) => if is_reference_key(k) { Some(v) } else { reference_from(attrs, i + 1) },
            _ => reference_from(attrs, i + 1),
        }
    }
}

/// The IRI text a tag references, if any.
pub open spec fn reference_of(tag: XmlTag) -> Option<Seq<char>> {
    reference_from(attr_views(tag.attributes@), 0)
}

/// Whether `key` names the referenced IRI.
fn reference_key(key: &str) -> (r: bool)
    ensures
        r == is_reference_key(key@),
{
    let cs = str_chars(key);
    ends_with_chars(&cs, "about") || ends_with_chars(&cs, "IRI")
}

/// The IRI a tag references: the value of its first decodable `about` or
/// `IRI` attribute; an empty value is no IRI.
fn reference_iri(tag: &XmlTag, missing: &str) -> (r: OwlResult<IRI>)
    ensures
        match reference_of(*tag) {
            Some(v) => if v.len() > 0 { r matches Ok(i) && i@ == v } else { r is Err },
            None => r matches Err(e) && e is ParseError,
        },
{
    let ghost av = attr_views(tag.attributes@);
    let mut i: usize = 0;
    while i < tag.attributes.len()
        invariant
            i <= tag.attributes@.len(),
            av == attr_views(tag.attributes@),
            reference_from(av, 0) == reference_from(av, i as int),
        decreases tag.attributes@.len() - i,
    {
        let attr = &tag.attributes[i];
        assert(av[i as int] == (opt_view(attr.0), opt_view(attr.1)));
        match (&attr.0, &attr.1) {
            (Some(k), Some(v)) => {
                if reference_key(k.as_str()) {
                    return IRI::new(v.as_str());
                }
            },
            _ => {},
        }
        i += 1;
    }
    Err(OwlError::ParseError(missing.to_owned()))
}


/// An event by what the decisions read of it: tag names, the referenced
/// IRI text of tags, and byte counts.
pub enum EventView {
    Start(Option<Seq<char>>, Option<Seq<char>>, nat),
    Empty(Option<Seq<char>>, Option<Seq<char>>),
    End(Option<Seq<char>>),
    Text(nat),
    Eof,
    Error,
    Other,
}

/// The view of an event.
pub open spec fn event_view(e: OwlXmlEvent) -> EventView {
    match e {
        OwlXmlEvent::Start(t, n) => EventView::Start(opt_view(t.name), reference_of(t), n as nat),
        OwlXmlEvent::Empty(t) => EventView::Empty(opt_view(t.name), reference_of(t)),
        OwlXmlEvent::End(n) => EventView::End(opt_view(n)),
        OwlXmlEvent::Text(n) => EventView::Text(n as nat),
        OwlXmlEvent::Eof => EventView::Eof,
        OwlXmlEvent::Error(_) => EventView::Error,
        OwlXmlEvent::Other => EventView::Other,
    }
}

/// Where the reader is: between axioms, inside a subclass axiom (with the
/// element depth and the classes read so far), or inside a class assertion.
#[derive(Debug)]
pub enum OwlXmlMode {
    Top,
    SubClass { depth: i64, sub_class: Option<ClassExpression>, super_class: Option<ClassExpression> },
    Assertion { individual: Option<IRI>, class_expr: Option<ClassExpression> },
}

/// The view of a mode.
pub enum ModeView {
    Top,
    SubClass(int, Option<Seq<char>>, Option<Seq<char>>),
    Assertion(Option<Seq<char>>, Option<Seq<char>>),
}

/// The IRI text of a named class expression.
pub open spec fn class_text(c: Option<ClassExpression>) -> Option<Seq<char>> {
    match c {
        Some(ClassExpression::Class(k)) => Some(k.iri_spec()@),
        _ => None,
    }
}

/// The view of a mode.
pub open spec fn mode_view(m: OwlXmlMode) -> ModeView {
    match m {
        OwlXmlMode::Top => ModeView::Top,
        OwlXmlMode::SubClass { depth, sub_class, super_class } =>
            ModeView::SubClass(depth as int, class_text(sub_class), class_text(super_class)),
        OwlXmlMode::Assertion { individual, class_expr } =>
            ModeView::Assertion(match individual { Some(i) => Some(i@), None => None }, class_text(class_expr)),
    }
}

/// What a step gives.
pub enum StepView {
    Continue,
    Emit(AxiomKey),
    Done,
    Fail,
}

/// A tag name ends with `suffix`.
pub open spec fn named(n: Option<Seq<char>>, suffix: Seq<char>) -> bool {
    n matches Some(t) && has_suffix(t, suffix)
}

/// A usable reference: present and not empty.
pub open spec fn ref_ok(r: Option<Seq<char>>) -> bool {
    r matches Some(v) && v.len() > 0
}

/// Taking a class reference into the first free slot of a subclass axiom.
pub open spec fn take_class(depth: int, sub: Option<Seq<char>>, sup: Option<Seq<char>>, r: Option<Seq<char>>)
    -> (ModeView, StepView)
{
    if sub is None {
        if ref_ok(r) { (ModeView::SubClass(depth, r, sup), StepView::Continue) } else { (ModeView::Top, StepView::Fail) }
    } else if sup is None {
        if ref_ok(r) { (ModeView::SubClass(depth, sub, r), StepView::Continue) } else { (ModeView::Top, StepView::Fail) }
    } else {
        (ModeView::SubClass(depth, sub, sup), StepView::Continue)
    }
}

/// The end of a subclass axiom: an axiom when both classes were read.
pub open spec fn finish_subclass(sub: Option<Seq<char>>, sup: Option<Seq<char>>) -> (ModeView, StepView) {
    match (sub, sup) {
        (Some(a), Some(b)) => (ModeView::Top, StepView::Emit(AxiomKey::Sub(ExprView::Class(a), ExprView::Class(b)))),
        _ => (ModeView::Top, StepView::Continue),
    }
}

/// The end of a class assertion: an axiom when the individual and the
/// class were read.
pub open spec fn finish_assertion(ind: Option<Seq<char>>, cls: Option<Seq<char>>) -> (ModeView, StepView) {
    match (ind, cls) {
        (Some(a), Some(b)) => (ModeView::Top, StepView::Emit(AxiomKey::Assertion(a, ExprView::Class(b)))),
        _ => (ModeView::Top, StepView::Continue),
    }
}

/// One step of the reader: the next mode and what comes of the event.
pub open spec fn owl_xml_step(m: ModeView, e: EventView) -> (ModeView, StepView) {
    match m {
        ModeView::Top => match e {
            EventView::Start(n, _, _) =>
                if named(n, "SubClassOf"@) { (ModeView::SubClass(1, None, None), StepView::Continue) }
                else if named(n, "ClassAssertion"@) { (ModeView::Assertion(None, None), StepView::Continue) }
                else { (ModeView::Top, StepView::Continue) },
            EventView::Eof => (ModeView::Top, StepView::Done),
            EventView::Error => (ModeView::Top, StepView::Fail),
            _ => (ModeView::Top, StepView::Continue),
        },
        ModeView::SubClass(depth, sub, sup) => match e {
            EventView::Start(n, r, _) =>
                if n is Some && named(n, "Class"@) && depth + 1 == 2 { take_class(depth + 1, sub, sup, r) }
                else { (ModeView::SubClass(depth + 1, sub, sup), StepView::Continue) },
            EventView::Empty(n, r) =>
                if named(n, "Class"@) { take_class(depth, sub, sup, r) }
                else { (ModeView::SubClass(depth, sub, sup), StepView::Continue) },
            EventView::End(n) =>
                if n is None { (ModeView::SubClass(depth, sub, sup), StepView::Continue) }
                else if named(n, "SubClassOf"@) { finish_subclass(sub, sup) }
                else { (ModeView::SubClass(depth - 1, sub, sup), StepView::Continue) },
            EventView::Eof => finish_subclass(sub, sup),
            _ => (ModeView::SubClass(depth, sub, sup), StepView::Continue),
        },
        ModeView::Assertion(ind, cls) => match e {
            EventView::Start(n, r, _) =>
                if named(n, "NamedIndividual"@) {
                    if ref_ok(r) { (ModeView::Assertion(r, cls), StepView::Continue) } else { (ModeView::Top, StepView::Fail) }
                } else if named(n, "Class"@) {
                    if ref_ok(r) { (ModeView::Assertion(ind, r), StepView::Continue) } else { (ModeView::Top, StepView::Fail) }
                } else { (ModeView::Assertion(ind, cls), StepView::Continue) },
            EventView::Empty(n, r) =>
                if named(n, "NamedIndividual"@) {
                    if ref_ok(r) { (ModeView::Assertion(r, cls), StepView::Continue) } else { (ModeView::Top, StepView::Fail) }
                } else if named(n, "Class"@) {
                    if ref_ok(r) { (ModeView::Assertion(ind, r), StepView::Continue) } else { (ModeView::Top, StepView::Fail) }
                } else { (ModeView::Assertion(ind, cls), StepView::Continue) },
            EventView::End(n) =>
                if named(n, "ClassAssertion"@) { finish_assertion(ind, cls) }
                else { (ModeView::Assertion(ind, cls), StepView::Continue) },
            EventView::Eof => finish_assertion(ind, cls),
            _ => (ModeView::Assertion(ind, cls), StepView::Continue),
        },
    }
}

/// The bytes counted after an event: the raw size of opening tags with a
/// readable name and the length of text, between axioms.
pub open spec fn bytes_after(m: ModeView, e: EventView, bytes: nat) -> nat {
    match m {
        ModeView::Top => match e {
            EventView::Start(Some(_), _, n) => bytes + n,
            EventView::Text(n) => bytes + n,
            _ => bytes,
        },
        _ => bytes,
    }
}


/// The bytes an event adds at most.
pub open spec fn event_len(e: OwlXmlEvent) -> nat {
    match e {
        OwlXmlEvent::Start(_, n) => n as nat,
        OwlXmlEvent::Text(n) => n as nat,
        _ => 0,
    }
}

/// What a step gives.
#[derive(Debug)]
pub enum StepOutcome {
    Continue,
    Axiom(Axiom),
    Done,
}

/// The view of a step's result.
pub open spec fn outcome_view(r: OwlResult<StepOutcome>) -> StepView {
    match r {
        Ok(StepOutcome::Continue) => StepView::Continue,
        Ok(StepOutcome::Axiom(a)) => StepView::Emit(axiom_key(a)),
        Ok(StepOutcome::Done) => StepView::Done,
        Err(_) => StepView::Fail,
    }
}

/// Whether the tag name is present and ends with `suffix`.
fn name_ends_with(name: &Option<String>, suffix: &str) -> (r: bool)
    ensures
        r == named(opt_view(*name), suffix@),
{
    match name {
        Some(n) => ends_with_chars(&str_chars(n.as_str()), suffix),
        None => false,
    }
}

/// A named class for the IRI a tag references.
fn parse_class_reference(tag: &XmlTag) -> (r: OwlResult<ClassExpression>)
    ensures
        ref_ok(reference_of(*tag)) ==> (r matches Ok(c) && class_text(Some(c)) == reference_of(*tag)),
        !ref_ok(reference_of(*tag)) ==> r is Err,
{
    match reference_iri(tag, "Class without IRI reference") {
        Ok(iri) => Ok(ClassExpression::Class(Class::new(iri))),
        Err(e) => Err(e),
    }
}

/// The IRI of the individual a tag references.
fn parse_individual_reference(tag: &XmlTag) -> (r: OwlResult<IRI>)
    ensures
        ref_ok(reference_of(*tag)) ==> (r matches Ok(i) && Some(i@) == reference_of(*tag)),
        !ref_ok(reference_of(*tag)) ==> r is Err,
{
    reference_iri(tag, "Individual without IRI reference")
}

/// The streaming OWL/XML reader's decisions: the mode it is in, the bytes
/// counted so far, and axioms waiting to be handed out.
#[derive(Debug)]
pub struct StreamingOwlXmlParser {
    pub mode: OwlXmlMode,
    pub bytes_read: usize,
    pub pending_axioms: Vec<Axiom>,
}

/// A class slot that is empty or holds a named class.
pub open spec fn named_or_none(c: Option<ClassExpression>) -> bool {
    c is None || class_text(c) is Some
}

/// A mode the reader can be in: its class slots hold named classes.
pub open spec fn mode_wf(m: OwlXmlMode) -> bool {
    match m {
        OwlXmlMode::Top => true,
        OwlXmlMode::SubClass { sub_class, super_class, .. } => named_or_none(sub_class) && named_or_none(super_class),
        OwlXmlMode::Assertion { class_expr, .. } => named_or_none(class_expr),
    }
}

/// The element depth leaves room to count one more either way.
pub open spec fn depth_room(m: OwlXmlMode) -> bool {
    m matches OwlXmlMode::SubClass { depth, .. } ==> i64::MIN < depth < i64::MAX
}

impl StreamingOwlXmlParser {
    /// A reader at the start of a document.
    pub fn new() -> (r: Self)
        ensures
            mode_view(r.mode) == ModeView::Top,
            r.bytes_read == 0,
            r.pending_axioms@.len() == 0,
    {
        StreamingOwlXmlParser { mode: OwlXmlMode::Top, bytes_read: 0, pending_axioms: Vec::new() }
    }

    /// The bytes counted so far.
    pub fn bytes_read(&self) -> (r: usize)
        ensures
            r == self.bytes_read,
    {
        self.bytes_read
    }

    /// Takes the next event (see `owl_xml_step`).
    pub fn step(&mut self, event: &OwlXmlEvent) -> (r: OwlResult<StepOutcome>)
        requires
            old(self).bytes_read + event_len(*event) <= usize::MAX,
            mode_wf(old(self).mode),
            depth_room(old(self).mode),
        ensures
            mode_wf(final(self).mode),
            outcome_view(r) != StepView::Continue ==> mode_view(final(self).mode) == ModeView::Top,
            (mode_view(final(self).mode), outcome_view(r))
                == owl_xml_step(mode_view(old(self).mode), event_view(*event)),
            final(self).bytes_read == bytes_after(mode_view(old(self).mode), event_view(*event), old(self).bytes_read as nat),
            final(self).pending_axioms@ == old(self).pending_axioms@,
    {
        let mut mode = OwlXmlMode::Top;
        std::mem::swap(&mut mode, &mut self.mode);
        match mode {
            OwlXmlMode::Top => {
                match event {
                    OwlXmlEvent::Start(tag, n) => {
                        if tag.name.is_none() {
                            return Ok(StepOutcome::Continue);
                        }
                        self.bytes_read = self.bytes_read + *n;
                        if name_ends_with(&tag.name, "SubClassOf") {
                            self.mode = OwlXmlMode::SubClass { depth: 1, sub_class: None, super_class: None };
                        } else if name_ends_with(&tag.name, "ClassAssertion") {
                            self.mode = OwlXmlMode::Assertion { individual: None, class_expr: None };
                        }
                        Ok(StepOutcome::Continue)
                    },
                    OwlXmlEvent::Text(n) => {
                        self.bytes_read = self.bytes_read + *n;
                        Ok(StepOutcome::Continue)
                    },
                    OwlXmlEvent::Eof => Ok(StepOutcome::Done),
                    OwlXmlEvent::Error(msg) => {
                        let mut text: Vec<char> = Vec::new();
                        push_str(&mut text, "XML parsing error: ");
                        push_str(&mut text, msg.as_str());
                        Err(OwlError::ParseError(string_from_chars(&text)))
                    },
                    _ => Ok(StepOutcome::Continue),
                }
            },
            OwlXmlMode::SubClass { depth, sub_class, super_class } => {
                match event {
                    OwlXmlEvent::Start(tag, _) => {
                        let d = depth + 1;
                        if tag.name.is_some() && name_ends_with(&tag.name, "Class") && d == 2 {
                            self.take_class(d, sub_class, super_class, tag)
                        } else {
                            self.mode = OwlXmlMode::SubClass { depth: d, sub_class, super_class };
                            Ok(StepOutcome::Continue)
                        }
                    },
                    OwlXmlEvent::Empty(tag) => {
                        if name_ends_with(&tag.name, "Class") {
                            self.take_class(depth, sub_class, super_class, tag)
                        } else {
                            self.mode = OwlXmlMode::SubClass { depth, sub_class, super_class };
                            Ok(StepOutcome::Continue)
                        }
                    },
                    OwlXmlEvent::End(name) => {
                        if name.is_none() {
                            self.mode = OwlXmlMode::SubClass { depth, sub_class, super_class };
                            Ok(StepOutcome::Continue)
                        } else if name_ends_with(name, "SubClassOf") {
                            Ok(finish_subclass_axiom(sub_class, super_class))
                        } else {
                            self.mode = OwlXmlMode::SubClass { depth: depth - 1, sub_class, super_class };
                            Ok(StepOutcome::Continue)
                        }
                    },
                    OwlXmlEvent::Eof => Ok(finish_subclass_axiom(sub_class, super_class)),
                    _ => {
                        self.mode = OwlXmlMode::SubClass { depth, sub_class, super_class };
                        Ok(StepOutcome::Continue)
                    },
                }
            },
            OwlXmlMode::Assertion { individual, class_expr } => {
                match event {
                    OwlXmlEvent::Start(tag, _) => self.take_assertion_part(individual, class_expr, tag),
                    OwlXmlEvent::Empty(tag) => self.take_assertion_part(individual, class_expr, tag),
                    OwlXmlEvent::End(name) => {
                        if name_ends_with(name, "ClassAssertion") {
                            Ok(finish_class_assertion(individual, class_expr))
                        } else {
                            self.mode = OwlXmlMode::Assertion { individual, class_expr };
                            Ok(StepOutcome::Continue)
                        }
                    },
                    OwlXmlEvent::Eof => Ok(finish_class_assertion(individual, class_expr)),
                    _ => {
                        self.mode = OwlXmlMode::Assertion { individual, class_expr };
                        Ok(StepOutcome::Continue)
                    },
                }
            },
        }
    }

    /// Reads a class reference into the first free slot of a subclass axiom.
    fn take_class(&mut self, depth: i64, sub_class: Option<ClassExpression>, super_class: Option<ClassExpression>,
        tag: &XmlTag) -> (r: OwlResult<StepOutcome>)
        requires
            mode_view(old(self).mode) == ModeView::Top,
            named_or_none(sub_class),
            named_or_none(super_class),
        ensures
            mode_wf(final(self).mode),
            (mode_view(final(self).mode), outcome_view(r))
                == take_class(depth as int, class_text(sub_class), class_text(super_class), reference_of(*tag)),
            final(self).bytes_read == old(self).bytes_read,
            final(self).pending_axioms@ == old(self).pending_axioms@,
    {
        if sub_class.is_none() {
            match parse_class_reference(tag) {
                Ok(c) => { self.mode = OwlXmlMode::SubClass { depth, sub_class: Some(c), super_class }; },
                Err(e) => { return Err(e); },
            }
        } else if super_class.is_none() {
            match parse_class_reference(tag) {
                Ok(c) => { self.mode = OwlXmlMode::SubClass { depth, sub_class, super_class: Some(c) }; },
                Err(e) => { return Err(e); },
            }
        } else {
            self.mode = OwlXmlMode::SubClass { depth, sub_class, super_class };
        }
        Ok(StepOutcome::Continue)
    }

    /// Reads the individual or the class of a class assertion.
    fn take_assertion_part(&mut self, individual: Option<IRI>, class_expr: Option<ClassExpression>, tag: &XmlTag)
        -> (r: OwlResult<StepOutcome>)
        requires
            mode_view(old(self).mode) == ModeView::Top,
            named_or_none(class_expr),
        ensures
            mode_wf(final(self).mode),
            (mode_view(final(self).mode), outcome_view(r)) == owl_xml_step(
                ModeView::Assertion(match individual { Some(i) => Some(i@), None => None }, class_text(class_expr)),
                EventView::Empty(opt_view(tag.name), reference_of(*tag))),
            final(self).bytes_read == old(self).bytes_read,
            final(self).pending_axioms@ == old(self).pending_axioms@,
    {
        if name_ends_with(&tag.name, "NamedIndividual") {
            match parse_individual_reference(tag) {
                Ok(i) => { self.mode = OwlXmlMode::Assertion { individual: Some(i), class_expr }; },
                Err(e) => { return Err(e); },
            }
        } else if name_ends_with(&tag.name, "Class") {
            match parse_class_reference(tag) {
                Ok(c) => { self.mode = OwlXmlMode::Assertion { individual, class_expr: Some(c) }; },
                Err(e) => { return Err(e); },
            }
        } else {
            self.mode = OwlXmlMode::Assertion { individual, class_expr };
        }
        Ok(StepOutcome::Continue)
    }
}

/// The subclass axiom of the two classes, when both were read.
fn finish_subclass_axiom(sub_class: Option<ClassExpression>, super_class: Option<ClassExpression>) -> (r: StepOutcome)
    requires
        sub_class is None || class_text(sub_class) is Some,
        super_class is None || class_text(super_class) is Some,
    ensures
        outcome_view(Ok(r)) == finish_subclass(class_text(sub_class), class_text(super_class)).1,
{
    match (sub_class, super_class) {
        (Some(a), Some(b)) => StepOutcome::Axiom(Axiom::SubClassOf(Box::new(SubClassOfAxiom::new(a, b)))),
        _ => StepOutcome::Continue,
    }
}

/// The class assertion of the individual and the class, when both were read.
fn finish_class_assertion(individual: Option<IRI>, class_expr: Option<ClassExpression>) -> (r: StepOutcome)
    requires
        class_expr is None || class_text(class_expr) is Some,
    ensures
        outcome_view(Ok(r)) == finish_assertion(match individual { Some(i) => Some(i@), None => None },
            class_text(class_expr)).1,
{
    match (individual, class_expr) {
        (Some(i), Some(c)) => StepOutcome::Axiom(Axiom::ClassAssertion(Box::new(ClassAssertionAxiom::new(Arc::new(i), c)))),
        _ => StepOutcome::Continue,
    }
}


/// The axioms read from a list of events, starting between axioms: each
/// event is stepped in order until the end of input or an error; `None`
/// when a step fails.
pub open spec fn run_owl_xml(m: ModeView, evs: Seq<EventView>) -> Option<Seq<AxiomKey>>
    decreases evs.len(),
{
    if evs.len() == 0 {
        Some(Seq::empty())
    } else {
        let (next, out) = owl_xml_step(m, evs[0]);
        match out {
            StepView::Done => Some(Seq::empty()),
            StepView::Fail => None,
            StepView::Continue => run_owl_xml(next, evs.drop_first()),
            StepView::Emit(k) => match run_owl_xml(next, evs.drop_first()) {
                Some(rest) => Some(seq![k] + rest),
                None => None,
            },
        }
    }
}

/// The events by their views.
pub open spec fn event_views(evs: Seq<OwlXmlEvent>) -> Seq<EventView> {
    evs.map_values(|e: OwlXmlEvent| event_view(e))
}

/// The bytes all events add at most.
pub open spec fn events_len(evs: Seq<OwlXmlEvent>) -> nat
    decreases evs.len(),
{
    if evs.len() == 0 { 0 } else { event_len(evs[0]) + events_len(evs.drop_first()) }
}

proof fn lemma_events_len_step(evs: Seq<OwlXmlEvent>, i: int)
    requires
        0 <= i < evs.len(),
    ensures
        events_len(evs.skip(i)) == event_len(evs[i]) + events_len(evs.skip(i + 1)),
{
    assert(evs.skip(i).drop_first() =~= evs.skip(i + 1));
}

proof fn lemma_events_len_skip(evs: Seq<OwlXmlEvent>, i: int)
    requires
        0 <= i <= evs.len(),
    ensures
        events_len(evs.skip(i)) <= events_len(evs),
    decreases i,
{
    if i > 0 {
        lemma_events_len_skip(evs, i - 1);
        lemma_events_len_step(evs, i - 1);
    } else {
        assert(evs.skip(0) =~= evs);
    }
}

/// The axioms of a whole list of XML events, in document order: subclass
/// axioms and class assertions between two named classes or a named
/// individual and a named class.
pub fn parse_owl_xml_events(events: &Vec<OwlXmlEvent>) -> (r: OwlResult<Vec<Axiom>>)
    requires
        events@.len() < i64::MAX,
        events_len(events@) <= usize::MAX,
    ensures
        match run_owl_xml(ModeView::Top, event_views(events@)) {
            Some(keys) => r matches Ok(v) && v@.map_values(|a: Axiom| axiom_key(a)) == keys,
            None => r is Err,
        },
{
    let ghost all = event_views(events@);
    let mut parser = StreamingOwlXmlParser::new();
    let mut axioms: Vec<Axiom> = Vec::new();
    let mut i: usize = 0;
    proof {
        assert(all.skip(0) =~= all);
        assert(events@.skip(0) =~= events@);
    }
    while i < events.len()
        invariant
            i <= events@.len(),
            events@.len() < i64::MAX,
            events_len(events@) <= usize::MAX,
            all == event_views(events@),
            mode_wf(parser.mode),
            parser.mode matches OwlXmlMode::SubClass { depth, .. } ==> 1 - i <= depth <= 1 + i,
            parser.bytes_read + events_len(events@.skip(i as int)) <= events_len(events@),
            run_owl_xml(ModeView::Top, all) == match run_owl_xml(mode_view(parser.mode), all.skip(i as int)) {
                Some(rest) => Some(axioms@.map_values(|a: Axiom| axiom_key(a)) + rest),
                None => None,
            },
        decreases events@.len() - i,
    {
        let ghost before = mode_view(parser.mode);
        proof {
            lemma_events_len_step(events@, i as int);
            lemma_events_len_skip(events@, i as int);
            assert(all.skip(i as int)[0] == event_view(events@[i as int]));
            assert(all.skip(i as int).drop_first() =~= all.skip(i + 1));
        }
        let out = parser.step(&events[i]);
        match out {
            Ok(StepOutcome::Continue) => {},
            Ok(StepOutcome::Axiom(a)) => {
                let ghost old_axioms = axioms@;
                axioms.push(a);
                proof {
                    assert(axioms@.map_values(|a: Axiom| axiom_key(a))
                        =~= old_axioms.map_values(|a: Axiom| axiom_key(a)) + seq![axiom_key(a)]);
                    let ks = old_axioms.map_values(|a: Axiom| axiom_key(a));
                    match run_owl_xml(mode_view(parser.mode), all.skip(i + 1)) {
                        Some(rest) => { assert(ks + seq![axiom_key(a)] + rest =~= ks + (seq![axiom_key(a)] + rest)); },
                        None => {},
                    }
                }
            },
            Ok(StepOutcome::Done) => {
                proof {
                    assert(axioms@.map_values(|a: Axiom| axiom_key(a)) + Seq::<AxiomKey>::empty()
                        =~= axioms@.map_values(|a: Axiom| axiom_key(a)));
                }
                return Ok(axioms);
            },
            Err(e) => {
                return Err(e);
            },
        }
        i += 1;
    }
    proof {
        assert(all.skip(i as int).len() == 0);
        assert(axioms@.map_values(|a: Axiom| axiom_key(a)) + Seq::<AxiomKey>::empty()
            =~= axioms@.map_values(|a: Axiom| axiom_key(a)));
    }
    Ok(axioms)
}

}
