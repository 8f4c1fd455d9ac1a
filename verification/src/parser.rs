//! Parsers: the N-Triples parser, the parser configuration, the choice of a
//! parser by file extension, content type or content, and the formats this
//! library names but does not read yet.

use vstd::prelude::*;
use std::sync::Arc;
use crate::iri::IRI;
use crate::error::{OwlError, OwlResult};
use crate::entities::{Class, ObjectProperty, NamedIndividual};
use crate::class_expression::{ClassExpression, ExprView};
use crate::axioms::{Axiom, SubClassOfAxiom, ClassAssertionAxiom};
use crate::ontology::{Ontology, class_iris};
use crate::binary_format::{AxiomKey, axiom_key, add_name, individual_names, object_property_names,
    data_property_names};
use crate::ntriples::{NtriplesTerm, NtriplesTriple, TermView, scan_statement, read_statement, read_term,
    skip_ws, until};
use crate::text::{str_chars, str_eq, starts_with_chars, ends_with_chars, has_prefix, has_suffix, has_sub, contains_chars,
    trim_chars, trimmed, string_from_chars, push_str, push_decimal, decimal, contains_char, slice_chars};

verus! {

broadcast use vstd::std_specs::vec::group_vec_axioms;

/// The IRI of `rdf:type`.
pub const RDF_TYPE: &'static str = "http://www.w3.org/1999/02/22-rdf-syntax-ns#type";

/// The IRI of `rdfs:subClassOf`.
pub const RDFS_SUBCLASSOF: &'static str = "http://www.w3.org/2000/01/rdf-schema#subClassOf";

/// The text of `RDF_TYPE`.
pub open spec fn rdf_type_text() -> Seq<char> {
    "http://www.w3.org/1999/02/22-rdf-syntax-ns#type"@
}

/// The text of `RDFS_SUBCLASSOF`.
pub open spec fn rdfs_subclass_text() -> Seq<char> {
    "http://www.w3.org/2000/01/rdf-schema#subClassOf"@
}

/// Parser configuration.
#[derive(Debug)]
pub struct ParserConfig {
    /// Maximum file size to parse, in bytes.
    pub max_file_size: usize,
    /// Whether to validate strict syntax.
    pub strict_validation: bool,
    /// Whether to resolve base IRIs.
    pub resolve_base_iri: bool,
    /// Custom prefix mappings, prefix and namespace.
    pub prefixes: Vec<(String, String)>,
    /// Whether to use arena allocation while parsing.
    pub use_arena_allocation: bool,
    /// Initial arena capacity in bytes.
    pub arena_capacity: usize,
    /// Maximum arena size in bytes.
    pub max_arena_size: usize,
    /// Whether to resolve imports while parsing.
    pub resolve_imports: bool,
    /// Whether to go on when an import cannot be resolved.
    pub ignore_import_errors: bool,
}

impl Default for ParserConfig {
    fn default() -> (r: Self)
        ensures
            r.max_file_size == 100 * 1024 * 1024,
            !r.strict_validation,
            !r.resolve_base_iri,
            r.prefixes@.len() == 0,
            r.use_arena_allocation,
            r.arena_capacity == 1024 * 1024,
            r.max_arena_size == 10 * 1024 * 1024,
            !r.resolve_imports,
            r.ignore_import_errors,
    {
        ParserConfig {
            max_file_size: 100 * 1024 * 1024,
            strict_validation: false,
            resolve_base_iri: false,
            prefixes: Vec::new(),
            use_arena_allocation: true,
            arena_capacity: 1024 * 1024,
            max_arena_size: 10 * 1024 * 1024,
            resolve_imports: false,
            ignore_import_errors: true,
        }
    }
}

/// What a sequence of N-Triples statements builds: class, individual and
/// object property names, and the axioms by their keys.
pub struct TripleState {
    pub classes: Seq<Seq<char>>,
    pub individuals: Seq<Seq<char>>,
    pub object_properties: Seq<Seq<char>>,
    pub axioms: Seq<AxiomKey>,
}

/// The part of an ontology that N-Triples statements build.
pub open spec fn state_of(o: Ontology) -> TripleState {
    TripleState {
        classes: class_iris(o.classes_spec()),
        individuals: individual_names(o.named_individuals_spec()),
        object_properties: object_property_names(o.object_properties_spec()),
        axioms: o.axioms_spec().map_values(|a: Axiom| axiom_key(a)),
    }
}

/// A predicate IRI that is taken for an object property: it starts with
/// `http://` and has no `#`.
pub open spec fn looks_like_object_property(p: Seq<char>) -> bool {
    has_prefix(p, "http://"@) && !p.contains('#')
}

/// What one statement adds: `s rdf:type o` makes both classes and asserts
/// `s` an instance of `o`; `s rdfs:subClassOf o` makes both classes and the
/// subclass axiom; any other IRI predicate makes `s` a named individual and
/// the predicate an object property when it looks like one; a literal
/// object makes the subject a named individual; other statements add
/// nothing.
pub open spec fn apply_triple(st: TripleState, s: TermView, p: TermView, o: TermView) -> TripleState {
    match (s, p, o) {
        (TermView::Iri(si), TermView::Iri(pi), TermView::Iri(oi)) => {
            if pi == rdf_type_text() {
                TripleState {
                    classes: add_name(add_name(st.classes, si), oi),
                    axioms: st.axioms.push(AxiomKey::Assertion(si, ExprView::Class(oi))),
                    ..st
                }
            } else if pi == rdfs_subclass_text() {
                TripleState {
                    classes: add_name(add_name(st.classes, si), oi),
                    axioms: st.axioms.push(AxiomKey::Sub(ExprView::Class(si), ExprView::Class(oi))),
                    ..st
                }
            } else {
                TripleState {
                    individuals: add_name(st.individuals, si),
                    object_properties: if looks_like_object_property(pi) {
                        add_name(st.object_properties, pi)
                    } else {
                        st.object_properties
                    },
                    ..st
                }
            }
        },
        (TermView::Iri(si), TermView::Iri(_), TermView::Literal(_, _, _)) => {
            TripleState { individuals: add_name(st.individuals, si), ..st }
        },
        _ => st,
    }
}

/// Law: the statement `s rdfs:subClassOf o` (three IRIs) adds to an
/// ontology exactly one axiom, at the end: a subclass axiom whose subclass
/// is the class `s` and whose superclass is the class `o`.
pub proof fn lemma_subclass_statement(before: Ontology, after: Ontology, s: Seq<char>, o: Seq<char>)
    requires
        state_of(after) == apply_triple(state_of(before), TermView::Iri(s),
            TermView::Iri("http://www.w3.org/2000/01/rdf-schema#subClassOf"@), TermView::Iri(o)),
    ensures
        after.axioms_spec().len() == before.axioms_spec().len() + 1,
        forall|k: int| 0 <= k < before.axioms_spec().len()
            ==> axiom_key(#[trigger] after.axioms_spec()[k]) == axiom_key(before.axioms_spec()[k]),
        after.axioms_spec().last() matches Axiom::SubClassOf(ax)
            && ax.sub_class_spec()@ == ExprView::Class(s) && ax.super_class_spec()@ == ExprView::Class(o),
{
    reveal_strlit("http://www.w3.org/2000/01/rdf-schema#subClassOf");
    reveal_strlit("http://www.w3.org/1999/02/22-rdf-syntax-ns#type");
    let sub = "http://www.w3.org/2000/01/rdf-schema#subClassOf"@;
    assert(sub != rdf_type_text()) by {
        assert(sub[18] != rdf_type_text()[18]);
    }
    let a = after.axioms_spec();
    let b = before.axioms_spec();
    assert(a.map_values(|x: Axiom| axiom_key(x)) == b.map_values(|x: Axiom| axiom_key(x))
        .push(AxiomKey::Sub(ExprView::Class(s), ExprView::Class(o))));
    assert(a.map_values(|x: Axiom| axiom_key(x)).len() == a.len());
    assert(b.map_values(|x: Axiom| axiom_key(x)).len() == b.len());
    assert(a.len() == b.len() + 1);
    assert forall|k: int| 0 <= k < b.len() implies axiom_key(#[trigger] a[k]) == axiom_key(b[k]) by {
        assert(a.map_values(|x: Axiom| axiom_key(x))[k] == axiom_key(a[k]));
        assert(b.map_values(|x: Axiom| axiom_key(x))[k] == axiom_key(b[k]));
    }
    assert(a.map_values(|x: Axiom| axiom_key(x))[b.len() as int] == axiom_key(a.last()));
}

/// The N-Triples parser.
#[derive(Debug)]
pub struct NtriplesParser {
    pub config: ParserConfig,
}

impl NtriplesParser {
    /// Creates a parser with the default configuration.
    pub fn new() -> (r: Self)
        ensures
            r.config.max_file_size == 100 * 1024 * 1024,
            r.config.ignore_import_errors,
            r.config.use_arena_allocation,
    {
        NtriplesParser { config: ParserConfig::default() }
    }

    /// Creates a parser with `config`.
    pub fn with_config(config: ParserConfig) -> (r: Self)
        ensures
            r.config == config,
    {
        NtriplesParser { config }
    }

    /// The name of the format.
    pub fn format_name(&self) -> (r: &'static str)
        ensures
            r@ == "N-Triples"@,
    {
        "N-Triples"
    }

    /// Advances `pos` past white space.
    pub fn skip_whitespace(&self, chars: &Vec<char>, pos: &mut usize)
        requires
            *old(pos) <= chars@.len(),
        ensures
            *final(pos) == skip_ws(chars@, *old(pos) as int),
            *final(pos) <= chars@.len(),
    {
        crate::ntriples::skip_whitespace(chars, pos);
    }

    /// Reads the term at `*pos` and advances `pos` past it.
    pub fn parse_ntriples_term(&self, chars: &Vec<char>, pos: &mut usize) -> (r: OwlResult<NtriplesTerm>)
        requires
            *old(pos) <= chars@.len(),
        ensures
            *final(pos) <= chars@.len(),
            match crate::ntriples::scan_term(chars@, *old(pos) as int) {
                crate::ntriples::TermScan::Found(v, q) => r matches Ok(t) && t@ == v && *final(pos) == q,
                crate::ntriples::TermScan::Failed => r matches Err(e) && e is ParseError,
            },
    {
        read_term(chars, pos)
    }

    /// Reads the statement on one line: three terms and the closing `.`;
    /// a line that is not such a statement is a parse error.
    pub fn parse_ntriples_line(&self, line: &str) -> (r: OwlResult<NtriplesTriple>)
        ensures
            match scan_statement(line@) {
                Some((s, p, o)) => r matches Ok(t) && t.subject@ == s && t.predicate@ == p && t.object@ == o,
                None => r matches Err(e) && e is ParseError,
            },
    {
        read_statement(line)
    }
}


/// The pieces of `s` between newline characters.
pub open spec fn segments(s: Seq<char>) -> Seq<Seq<char>>
    decreases s.len(),
{
    let i = until(s, 0, '\n');
    if i >= s.len() {
        seq![s]
    } else {
        proof {
            lemma_until_range(s, 0);
        }
        seq![s.subrange(0, i)] + segments(s.subrange(i + 1, s.len() as int))
    }
}

pub proof fn lemma_until_range(s: Seq<char>, p: int)
    requires
        0 <= p <= s.len(),
    ensures
        p <= until(s, p, '\n') <= s.len(),
        until(s, p, '\n') < s.len() ==> s[until(s, p, '\n')] == '\n',
        forall|j: int| p <= j < until(s, p, '\n') ==> s[j] != '\n',
    decreases s.len() - p,
{
    if p < s.len() && s[p] != '\n' {
        lemma_until_range(s, p + 1);
    }
}

/// A line without content: empty after trimming, or a comment.
pub open spec fn line_skipped(l: Seq<char>) -> bool {
    trimmed(l).len() == 0 || trimmed(l)[0] == '#'
}

/// The outcome of reading lines: the state built, or the number of the
/// first line that is not a statement.
pub enum LinesOutcome {
    Built(TripleState),
    BadLine(nat),
}

/// Reads the lines `ls`, numbered from `before + 1`, on top of `st`.
pub open spec fn run_lines(st: TripleState, ls: Seq<Seq<char>>, before: nat) -> LinesOutcome
    decreases ls.len(),
{
    if ls.len() == 0 {
        LinesOutcome::Built(st)
    } else if line_skipped(ls[0]) {
        run_lines(st, ls.drop_first(), before + 1)
    } else {
        match scan_statement(trimmed(ls[0])) {
            Some((s, p, o)) => run_lines(apply_triple(st, s, p, o), ls.drop_first(), before + 1),
            None => LinesOutcome::BadLine(before + 1),
        }
    }
}

/// The empty state.
pub open spec fn empty_state() -> TripleState {
    TripleState { classes: Seq::empty(), individuals: Seq::empty(), object_properties: Seq::empty(), axioms: Seq::empty() }
}

impl NtriplesParser {
    /// Adds what one statement says to `ontology` (see `apply_triple`).
    pub fn add_triple_to_ontology(&self, ontology: &mut Ontology, triple: &NtriplesTriple) -> (r: OwlResult<()>)
        ensures
            r is Ok,
            state_of(*final(ontology)) == apply_triple(state_of(*old(ontology)), triple.subject@,
                triple.predicate@, triple.object@),
            final(ontology).data_properties_spec() == old(ontology).data_properties_spec(),
            final(ontology).iri_spec() == old(ontology).iri_spec(),
            final(ontology).version_iri_spec() == old(ontology).version_iri_spec(),
    {
        match (&triple.subject, &triple.predicate, &triple.object) {
            (NtriplesTerm::IRI(subject_iri), NtriplesTerm::IRI(predicate_iri), NtriplesTerm::IRI(object_iri)) => {
                if str_eq(predicate_iri.as_str(), RDF_TYPE) {
                    let ghost before = *ontology;
                    let subject_class = Class::new(subject_iri.clone());
                    let object_class = Class::new(object_iri.clone());
                    let _ = ontology.add_class(subject_class);
                    let ghost mid = ontology.classes_spec();
                    let _ = ontology.add_class(object_class);
                    let ghost axs = ontology.axioms_spec();
                    let class_assertion = ClassAssertionAxiom::new(Arc::new(subject_iri.clone()),
                        ClassExpression::Class(Class::new(object_iri.clone())));
                    let _ = ontology.add_class_assertion(class_assertion);
                    proof {
                        assert(class_iris(mid) =~= add_name(class_iris(before.classes_spec()), subject_iri@)) by {
                            if !class_iris(before.classes_spec()).contains(subject_iri@) {
                                assert(class_iris(before.classes_spec().push(subject_class)) =~= class_iris(before.classes_spec()).push(subject_iri@));
                            }
                        }
                        if !class_iris(mid).contains(object_iri@) {
                            assert(class_iris(mid.push(object_class)) =~= class_iris(mid).push(object_iri@));
                        }
                        assert(ontology.axioms_spec().map_values(|a: Axiom| axiom_key(a))
                            =~= axs.map_values(|a: Axiom| axiom_key(a)).push(AxiomKey::Assertion(subject_iri@, ExprView::Class(object_iri@))));
                    }
                } else if str_eq(predicate_iri.as_str(), RDFS_SUBCLASSOF) {
                    let ghost before = *ontology;
                    let subject_class = Class::new(subject_iri.clone());
                    let object_class = Class::new(object_iri.clone());
                    let _ = ontology.add_class(subject_class);
                    let ghost mid = ontology.classes_spec();
                    let _ = ontology.add_class(object_class);
                    let ghost axs = ontology.axioms_spec();
                    let subclass_axiom = SubClassOfAxiom::new(ClassExpression::Class(Class::new(subject_iri.clone())),
                        ClassExpression::Class(Class::new(object_iri.clone())));
                    let _ = ontology.add_subclass_axiom(subclass_axiom);
                    proof {
                        assert(class_iris(mid) =~= add_name(class_iris(before.classes_spec()), subject_iri@)) by {
                            if !class_iris(before.classes_spec()).contains(subject_iri@) {
                                assert(class_iris(before.classes_spec().push(subject_class)) =~= class_iris(before.classes_spec()).push(subject_iri@));
                            }
                        }
                        if !class_iris(mid).contains(object_iri@) {
                            assert(class_iris(mid.push(object_class)) =~= class_iris(mid).push(object_iri@));
                        }
                        assert(ontology.axioms_spec().map_values(|a: Axiom| axiom_key(a))
                            =~= axs.map_values(|a: Axiom| axiom_key(a)).push(
                                AxiomKey::Sub(ExprView::Class(subject_iri@), ExprView::Class(object_iri@))));
                    }
                } else {
                    add_individual_named(ontology, subject_iri);
                    let pchars = str_chars(predicate_iri.as_str());
                    if starts_with_chars(&pchars, "http://") && !contains_char(&pchars, '#') {
                        let ghost before = ontology.object_properties_spec();
                        let prop = ObjectProperty::new(predicate_iri.clone());
                        proof {
                            let bn = object_property_names(before);
                            if bn.contains(prop.iri_spec()@) {
                                let j = choose|j: int| 0 <= j < bn.len() && bn[j] == prop.iri_spec()@;
                                assert(before[j].iri_spec()@ == prop.iri_spec()@);
                            } else {
                                assert forall|j: int| 0 <= j < before.len() implies #[trigger] before[j].iri_spec()@ != prop.iri_spec()@ by {
                                    assert(bn[j] == before[j].iri_spec()@);
                                }
                            }
                        }
                        let _ = ontology.add_object_property(prop);
                        proof {
                            if !object_property_names(before).contains(predicate_iri@) {
                                assert(object_property_names(before.push(prop)) =~= object_property_names(before).push(predicate_iri@));
                            }
                        }
                    }
                }
            },
            (NtriplesTerm::IRI(subject_iri), NtriplesTerm::IRI(_), NtriplesTerm::Literal { .. }) => {
                add_individual_named(ontology, subject_iri);
            },
            _ => {},
        }
        Ok(())
    }
}

/// Adds the named individual `iri` unless present.
fn add_individual_named(ontology: &mut Ontology, iri: &IRI)
    ensures
        individual_names(final(ontology).named_individuals_spec())
            == add_name(individual_names(old(ontology).named_individuals_spec()), iri@),
        final(ontology).classes_spec() == old(ontology).classes_spec(),
        final(ontology).object_properties_spec() == old(ontology).object_properties_spec(),
        final(ontology).data_properties_spec() == old(ontology).data_properties_spec(),
        final(ontology).axioms_spec() == old(ontology).axioms_spec(),
        final(ontology).iri_spec() == old(ontology).iri_spec(),
        final(ontology).version_iri_spec() == old(ontology).version_iri_spec(),
{
    let ghost before = ontology.named_individuals_spec();
    let ind = NamedIndividual::new(iri.clone());
    proof {
        let bn = individual_names(before);
        if bn.contains(ind.iri_spec()@) {
            let j = choose|j: int| 0 <= j < bn.len() && bn[j] == ind.iri_spec()@;
            assert(before[j].iri_spec()@ == ind.iri_spec()@);
        } else {
            assert forall|j: int| 0 <= j < before.len() implies #[trigger] before[j].iri_spec()@ != ind.iri_spec()@ by {
                assert(bn[j] == before[j].iri_spec()@);
            }
        }
    }
    let _ = ontology.add_named_individual(ind);
    proof {
        if !individual_names(before).contains(iri@) {
            assert(individual_names(before.push(ind)) =~= individual_names(before).push(iri@));
        }
    }
}


/// Where the first `c` at or after `p` stands, given what lies between.
proof fn lemma_until_at(s: Seq<char>, p: int, i: int, c: char)
    requires
        0 <= p <= i <= s.len(),
        forall|j: int| p <= j < i ==> s[j] != c,
        i == s.len() || s[i] == c,
    ensures
        until(s, p, c) == i,
    decreases i - p,
{
    if p < i {
        lemma_until_at(s, p + 1, i, c);
    }
}

/// The state of an empty ontology.
proof fn lemma_empty_state(o: Ontology)
    requires
        o.classes_spec().len() == 0,
        o.named_individuals_spec().len() == 0,
        o.object_properties_spec().len() == 0,
        o.axioms_spec().len() == 0,
    ensures
        state_of(o) == empty_state(),
{
    assert(class_iris(o.classes_spec()) =~= Seq::<Seq<char>>::empty());
    assert(individual_names(o.named_individuals_spec()) =~= Seq::<Seq<char>>::empty());
    assert(object_property_names(o.object_properties_spec()) =~= Seq::<Seq<char>>::empty());
    assert(o.axioms_spec().map_values(|a: Axiom| axiom_key(a)) =~= Seq::<AxiomKey>::empty());
}

impl NtriplesParser {
    /// Reads N-Triples text, one statement per line; blank lines and lines
    /// starting with `#` are passed over. The first line that is not a
    /// statement stops the reading with an error that names it.
    pub fn parse_str(&self, content: &str) -> (r: OwlResult<Ontology>)
        requires
            content@.len() < usize::MAX,
        ensures
            match run_lines(empty_state(), segments(content@), 0) {
                LinesOutcome::Built(st) => r matches Ok(o) && state_of(o) == st
                    && o.data_properties_spec().len() == 0 && o.iri_spec() is None && o.version_iri_spec() is None,
                LinesOutcome::BadLine(n) => r matches Err(e) && e is ParseError
                    && has_prefix(e->ParseError_0@, "Parse error at line "@ + decimal(n) + ": "@),
            },
    {
        let cs = str_chars(content);
        let mut ontology = Ontology::new();
        proof {
            lemma_empty_state(ontology);
            assert(cs@.subrange(0, cs@.len() as int) =~= cs@);
        }
        let mut start: usize = 0;
        let mut line_num: usize = 0;
        loop
            invariant
                cs@ == content@,
                cs@.len() < usize::MAX,
                start <= cs@.len(),
                line_num <= start,
                ontology.data_properties_spec().len() == 0,
                ontology.iri_spec() is None,
                ontology.version_iri_spec() is None,
                run_lines(empty_state(), segments(cs@), 0)
                    == run_lines(state_of(ontology), segments(cs@.subrange(start as int, cs@.len() as int)), line_num as nat),
            decreases cs@.len() - start,
        {
            let mut end = start;
            while end < cs.len() && cs[end] != '\n'
                invariant
                    start <= end <= cs@.len(),
                    forall|j: int| start <= j < end ==> cs@[j] != '\n',
                decreases cs@.len() - end,
            {
                end += 1;
            }
            let ghost sub = cs@.subrange(start as int, cs@.len() as int);
            proof {
                lemma_until_at(sub, 0, end - start, '\n');
                if end < cs@.len() {
                    assert(sub.subrange(0, end - start) =~= cs@.subrange(start as int, end as int));
                    assert(sub.subrange(end - start + 1, sub.len() as int) =~= cs@.subrange(end + 1, cs@.len() as int));
                    let ls = seq![cs@.subrange(start as int, end as int)] + segments(cs@.subrange(end + 1, cs@.len() as int));
                    assert(segments(sub) == ls);
                    assert(ls.drop_first() =~= segments(cs@.subrange(end + 1, cs@.len() as int)));
                } else {
                    assert(sub =~= cs@.subrange(start as int, end as int));
                    assert(seq![sub].drop_first() =~= Seq::<Seq<char>>::empty());
                }
            }
            let ghost st0 = state_of(ontology);
            let ghost ln0 = line_num as nat;
            line_num = line_num + 1;
            let seg = slice_chars(&cs, start, end);
            let line = trim_chars(&seg);
            if !(line.len() == 0 || line[0] == '#') {
                let text = string_from_chars(&line);
                match self.parse_ntriples_line(text.as_str()) {
                    Ok(triple) => {
                        let _ = self.add_triple_to_ontology(&mut ontology, &triple);
                    },
                    Err(e) => {
                        let mut msg: Vec<char> = Vec::new();
                        push_str(&mut msg, "Parse error at line ");
                        push_decimal(&mut msg, line_num);
                        push_str(&mut msg, ": ");
                        let ghost head = msg@;
                        match e {
                            OwlError::ParseError(m) => {
                                push_str(&mut msg, m.as_str());
                            },
                            _ => {},
                        }
                        proof {
                            assert(msg@.subrange(0, head.len() as int) =~= head);
                        }
                        return Err(OwlError::ParseError(string_from_chars(&msg)));
                    },
                }
            }
            if end >= cs.len() {
                proof {
                    let one = seq![cs@.subrange(start as int, end as int)];
                    assert(one[0] == seg@);
                    assert(one.drop_first() =~= Seq::<Seq<char>>::empty());
                    assert(run_lines(state_of(ontology), Seq::<Seq<char>>::empty(), ln0 + 1)
                        == LinesOutcome::Built(state_of(ontology)));
                    assert(run_lines(st0, one, ln0) == LinesOutcome::Built(state_of(ontology)));
                }
                return Ok(ontology);
            }
            start = end + 1;
        }
    }
}


/// The operations common to the ontology parsers.
pub trait OntologyParser {
    /// Parses an ontology from text.
    fn parse_str(&self, content: &str) -> OwlResult<Ontology>
        requires
            content@.len() < usize::MAX,
    ;

    /// The name of the format.
    fn format_name(&self) -> &'static str;
}

impl OntologyParser for NtriplesParser {
    fn parse_str(&self, content: &str) -> (r: OwlResult<Ontology>)
        ensures
            match run_lines(empty_state(), segments(content@), 0) {
                LinesOutcome::Built(st) => r matches Ok(o) && state_of(o) == st
                    && o.data_properties_spec().len() == 0 && o.iri_spec() is None && o.version_iri_spec() is None,
                LinesOutcome::BadLine(n) => r matches Err(e) && e is ParseError
                    && has_prefix(e->ParseError_0@, "Parse error at line "@ + decimal(n) + ": "@),
            },
    {
        NtriplesParser::parse_str(self, content)
    }

    fn format_name(&self) -> (r: &'static str)
        ensures
            r@ == "N-Triples"@,
    {
        NtriplesParser::format_name(self)
    }
}

/// The JSON-LD parser; reading JSON-LD is not implemented.
#[derive(Debug)]
pub struct JsonLdParser;

impl JsonLdParser {
    /// Creates the parser.
    pub fn new() -> (r: Self) {
        JsonLdParser
    }

    /// Always fails: reading JSON-LD is not implemented.
    pub fn parse_str(&self, _content: &str) -> (r: OwlResult<Ontology>)
        ensures
            r matches Err(OwlError::ParseError(m)) && m@ == "JSON-LD parser not yet implemented"@,
    {
        Err(OwlError::ParseError("JSON-LD parser not yet implemented".to_owned()))
    }

    /// The name of the format.
    pub fn format_name(&self) -> (r: &'static str)
        ensures
            r@ == "JSON-LD"@,
    {
        "JSON-LD"
    }
}

impl OntologyParser for JsonLdParser {
    fn parse_str(&self, content: &str) -> (r: OwlResult<Ontology>)
        ensures
            r matches Err(OwlError::ParseError(m)) && m@ == "JSON-LD parser not yet implemented"@,
    {
        JsonLdParser::parse_str(self, content)
    }

    fn format_name(&self) -> (r: &'static str)
        ensures
            r@ == "JSON-LD"@,
    {
        JsonLdParser::format_name(self)
    }
}

/// The Manchester syntax parser; reading Manchester syntax is not implemented.
#[derive(Debug)]
pub struct ManchesterParser;

/// The syntax tree of a Manchester syntax document.
#[derive(Debug)]
pub struct ManchesterAST;

impl ManchesterParser {
    /// Creates the parser.
    pub fn new() -> (r: Self) {
        ManchesterParser
    }

    /// Always fails: reading Manchester syntax is not implemented.
    pub fn parse_str(&self, _content: &str) -> (r: OwlResult<Ontology>)
        ensures
            r matches Err(OwlError::ParseError(m)) && m@ == "Manchester Syntax parser not yet implemented"@,
    {
        Err(OwlError::ParseError("Manchester Syntax parser not yet implemented".to_owned()))
    }

    /// The name of the format.
    pub fn format_name(&self) -> (r: &'static str)
        ensures
            r@ == "Manchester OWL Syntax"@,
    {
        "Manchester OWL Syntax"
    }
}

impl OntologyParser for ManchesterParser {
    fn parse_str(&self, content: &str) -> (r: OwlResult<Ontology>)
        ensures
            r matches Err(OwlError::ParseError(m)) && m@ == "Manchester Syntax parser not yet implemented"@,
    {
        ManchesterParser::parse_str(self, content)
    }

    fn format_name(&self) -> (r: &'static str)
        ensures
            r@ == "Manchester OWL Syntax"@,
    {
        ManchesterParser::format_name(self)
    }
}

/// The OWL functional syntax parser; reading it is not implemented.
#[derive(Debug)]
pub struct OwlFunctionalSyntaxParser;

impl OwlFunctionalSyntaxParser {
    /// Creates the parser.
    pub fn new() -> (r: Self) {
        OwlFunctionalSyntaxParser
    }

    /// Always fails: reading OWL functional syntax is not implemented.
    pub fn parse_str(&self, _content: &str) -> (r: OwlResult<Ontology>)
        ensures
            r matches Err(OwlError::ParseError(m)) && m@ == "OWL Functional Syntax parser not yet implemented"@,
    {
        Err(OwlError::ParseError("OWL Functional Syntax parser not yet implemented".to_owned()))
    }

    /// The name of the format.
    pub fn format_name(&self) -> (r: &'static str)
        ensures
            r@ == "OWL Functional Syntax"@,
    {
        "OWL Functional Syntax"
    }
}

impl OntologyParser for OwlFunctionalSyntaxParser {
    fn parse_str(&self, content: &str) -> (r: OwlResult<Ontology>)
        ensures
            r matches Err(OwlError::ParseError(m)) && m@ == "OWL Functional Syntax parser not yet implemented"@,
    {
        OwlFunctionalSyntaxParser::parse_str(self, content)
    }

    fn format_name(&self) -> (r: &'static str)
        ensures
            r@ == "OWL Functional Syntax"@,
    {
        OwlFunctionalSyntaxParser::format_name(self)
    }
}

/// An IRI text as given: this library accepts it unchanged.
pub fn sanitize_iri(iri: &str) -> (r: OwlResult<String>)
    ensures
        r matches Ok(s) && s@ == iri@,
{
    Ok(iri.to_owned())
}

/// The formats a parser can be chosen for.
#[derive(Debug, Clone, Copy, PartialEq, Eq, Structural)]
pub enum ParserFormat {
    Turtle,
    RdfXml,
    OwlFunctional,
    OwlXml,
    NTriples,
    JsonLd,
    Manchester,
}

/// `s` with ASCII capitals made small.
pub open spec fn ascii_lower(s: Seq<char>) -> Seq<char> {
    s.map_values(|c: char| if 'A' <= c && c <= 'Z' { ((c as u32) + 32) as char } else { c })
}

/// The format a (lower-case) file extension names.
pub open spec fn format_for_extension(e: Seq<char>) -> Option<ParserFormat> {
    if e == "ttl"@ || e == "turtle"@ { Some(ParserFormat::Turtle) }
    else if e == "rdf"@ || e == "rdfs"@ { Some(ParserFormat::RdfXml) }
    else if e == "owl"@ || e == "ofn"@ { Some(ParserFormat::OwlFunctional) }
    else if e == "owx"@ || e == "xml"@ { Some(ParserFormat::OwlXml) }
    else if e == "nt"@ { Some(ParserFormat::NTriples) }
    else if e == "jsonld"@ || e == "json-ld"@ || e == "json"@ { Some(ParserFormat::JsonLd) }
    else if e == "man"@ || e == "mn"@ || e == "manchester"@ { Some(ParserFormat::Manchester) }
    else { None }
}

/// The format a content type names.
pub open spec fn format_for_content_type(t: Seq<char>) -> Option<ParserFormat> {
    if t == "text/turtle"@ || t == "application/x-turtle"@ { Some(ParserFormat::Turtle) }
    else if t == "application/rdf+xml"@ { Some(ParserFormat::RdfXml) }
    else if t == "application/owl+xml"@ { Some(ParserFormat::OwlXml) }
    else if t == "application/n-triples"@ || t == "text/plain"@ { Some(ParserFormat::NTriples) }
    else if t == "application/ld+json"@ || t == "application/json"@ { Some(ParserFormat::JsonLd) }
    else if t == "text/manchester"@ || t == "application/manchester"@ { Some(ParserFormat::Manchester) }
    else { None }
}

/// Whether `v` holds the characters of `lit`.
fn eq_lit(v: &Vec<char>, lit: &str) -> (r: bool)
    ensures
        r == (v@ == lit@),
{
    let l = str_chars(lit);
    crate::text::chars_eq(v, &l)
}

/// The factory that picks a parser.
pub struct ParserFactory;

impl ParserFactory {
    /// The format for a file extension, compared without regard to ASCII case.
    pub fn for_file_extension(ext: &str) -> (r: Option<ParserFormat>)
        ensures
            r == format_for_extension(ascii_lower(ext@)),
    {
        let cs = str_chars(ext);
        let mut e: Vec<char> = Vec::new();
        let mut i: usize = 0;
        while i < cs.len()
            invariant
                i <= cs@.len(),
                e@ == ascii_lower(cs@.take(i as int)),
            decreases cs@.len() - i,
        {
            let c = cs[i];
            let l = if 'A' <= c && c <= 'Z' { ((c as u8) + 32) as char } else { c };
            e.push(l);
            proof {
                assert(cs@.take(i + 1) =~= cs@.take(i as int).push(c));
                assert(e@ =~= ascii_lower(cs@.take(i + 1)));
            }
            i += 1;
        }
        assert(cs@.take(cs@.len() as int) =~= cs@);
        if eq_lit(&e, "ttl") || eq_lit(&e, "turtle") { Some(ParserFormat::Turtle) }
        else if eq_lit(&e, "rdf") || eq_lit(&e, "rdfs") { Some(ParserFormat::RdfXml) }
        else if eq_lit(&e, "owl") || eq_lit(&e, "ofn") { Some(ParserFormat::OwlFunctional) }
        else if eq_lit(&e, "owx") || eq_lit(&e, "xml") { Some(ParserFormat::OwlXml) }
        else if eq_lit(&e, "nt") { Some(ParserFormat::NTriples) }
        else if eq_lit(&e, "jsonld") || eq_lit(&e, "json-ld") || eq_lit(&e, "json") { Some(ParserFormat::JsonLd) }
        else if eq_lit(&e, "man") || eq_lit(&e, "mn") || eq_lit(&e, "manchester") { Some(ParserFormat::Manchester) }
        else { None }
    }

    /// The format for a content type.
    pub fn for_content_type(content_type: &str) -> (r: Option<ParserFormat>)
        ensures
            r == format_for_content_type(content_type@),
    {
        let t = str_chars(content_type);
        if eq_lit(&t, "text/turtle") || eq_lit(&t, "application/x-turtle") { Some(ParserFormat::Turtle) }
        else if eq_lit(&t, "application/rdf+xml") { Some(ParserFormat::RdfXml) }
        else if eq_lit(&t, "application/owl+xml") { Some(ParserFormat::OwlXml) }
        else if eq_lit(&t, "application/n-triples") || eq_lit(&t, "text/plain") { Some(ParserFormat::NTriples) }
        else if eq_lit(&t, "application/ld+json") || eq_lit(&t, "application/json") { Some(ParserFormat::JsonLd) }
        else if eq_lit(&t, "text/manchester") || eq_lit(&t, "application/manchester") { Some(ParserFormat::Manchester) }
        else { None }
    }
}


/// The format a text looks like, by the tests tried in turn: JSON-LD
/// braces and keywords, an XML prolog or RDF root, Manchester keywords,
/// functional syntax openers, Turtle prefixes, and an N-Triples first line.
pub open spec fn detect_format(content: Seq<char>) -> Option<ParserFormat> {
    let t = trimmed(content);
    if (has_prefix(t, "{"@) && has_suffix(t, "}"@)) || has_sub(t, "@context"@) || has_sub(t, "@graph"@)
        || (has_prefix(t, "{"@) && has_sub(t, "\"@id\""@)) {
        Some(ParserFormat::JsonLd)
    } else if has_prefix(t, "<?xml"@) || has_prefix(t, "<rdf:RDF"@) {
        if has_sub(content, "<rdf:RDF"@) || has_sub(content, "<rdf:Description"@) {
            Some(ParserFormat::RdfXml)
        } else if has_sub(content, "<Ontology"@) || has_sub(content, "<owl:Ontology"@) {
            Some(ParserFormat::RdfXml)
        } else {
            Some(ParserFormat::OwlXml)
        }
    } else if has_prefix(t, "<rdf:Description"@) {
        Some(ParserFormat::RdfXml)
    } else if has_prefix(t, "Prefix:"@) || has_sub(t, "Class:"@) || has_sub(t, "ObjectProperty:"@)
        || has_sub(t, "Individual:"@) {
        Some(ParserFormat::Manchester)
    } else if has_prefix(t, "Prefix("@) || (has_prefix(t, "Ontology("@) && !has_prefix(t, "<"@))
        || (has_prefix(t, "Document("@) && has_sub(t, "Prefix("@)) {
        Some(ParserFormat::OwlFunctional)
    } else if has_prefix(t, "@prefix"@) || has_prefix(t, "PREFIX"@) {
        Some(ParserFormat::Turtle)
    } else if has_sub(segments(content)[0], "> <"@) && has_sub(segments(content)[0], " ."@) {
        Some(ParserFormat::NTriples)
    } else {
        None
    }
}

/// Law: a document whose trimmed text opens with an XML prolog or an
/// `rdf:RDF` root, holds `<rdf:RDF` or `<rdf:Description`, and has none of
/// JSON-LD's `@context` and `@graph` markers, is detected as RDF/XML.
pub proof fn lemma_detects_rdf_xml(content: Seq<char>)
    requires
        has_prefix(trimmed(content), "<?xml"@) || has_prefix(trimmed(content), "<rdf:RDF"@),
        has_sub(content, "<rdf:RDF"@) || has_sub(content, "<rdf:Description"@),
        !has_sub(trimmed(content), "@context"@),
        !has_sub(trimmed(content), "@graph"@),
    ensures
        detect_format(content) == Some(ParserFormat::RdfXml),
{
    reveal_strlit("<?xml");
    reveal_strlit("<rdf:RDF");
    reveal_strlit("{");
    let t = trimmed(content);
    assert(t[0] == '<') by {
        if has_prefix(t, "<?xml"@) {
            assert(t.subrange(0, 5)[0] == t[0]);
            assert("<?xml"@[0] == '<');
        } else {
            assert(t.subrange(0, 8)[0] == t[0]);
            assert("<rdf:RDF"@[0] == '<');
        }
    }
    assert(!has_prefix(t, "{"@)) by {
        if has_prefix(t, "{"@) {
            assert(t.subrange(0, 1)[0] == t[0]);
            assert("{"@[0] == '{');
        }
    }
}

/// Law: a document is handed to the OWL/XML reader only when its trimmed
/// text opens with an XML prolog or an `rdf:RDF` root and it holds none of
/// `<rdf:RDF`, `<rdf:Description`, `<Ontology` and `<owl:Ontology`.
pub proof fn lemma_owl_xml_detected_only_without_rdf(content: Seq<char>)
    ensures
        detect_format(content) == Some(ParserFormat::OwlXml) ==>
            (has_prefix(trimmed(content), "<?xml"@) || has_prefix(trimmed(content), "<rdf:RDF"@))
            && !has_sub(content, "<rdf:RDF"@) && !has_sub(content, "<rdf:Description"@)
            && !has_sub(content, "<Ontology"@) && !has_sub(content, "<owl:Ontology"@),
{
}

impl ParserFactory {
    /// The format `content` looks like (see `detect_format`).
    pub fn auto_detect(content: &str) -> (r: Option<ParserFormat>)
        ensures
            r == detect_format(content@),
    {
        let cs = str_chars(content);
        let t = trim_chars(&cs);
        if (starts_with_chars(&t, "{") && ends_with_chars(&t, "}")) || contains_chars(&t, "@context")
            || contains_chars(&t, "@graph") || (starts_with_chars(&t, "{") && contains_chars(&t, "\"@id\"")) {
            Some(ParserFormat::JsonLd)
        } else if starts_with_chars(&t, "<?xml") || starts_with_chars(&t, "<rdf:RDF") {
            if contains_chars(&cs, "<rdf:RDF") || contains_chars(&cs, "<rdf:Description") {
                Some(ParserFormat::RdfXml)
            } else if contains_chars(&cs, "<Ontology") || contains_chars(&cs, "<owl:Ontology") {
                Some(ParserFormat::RdfXml)
            } else {
                Some(ParserFormat::OwlXml)
            }
        } else if starts_with_chars(&t, "<rdf:Description") {
            Some(ParserFormat::RdfXml)
        } else if starts_with_chars(&t, "Prefix:") || contains_chars(&t, "Class:")
            || contains_chars(&t, "ObjectProperty:") || contains_chars(&t, "Individual:") {
            Some(ParserFormat::Manchester)
        } else if starts_with_chars(&t, "Prefix(") || (starts_with_chars(&t, "Ontology(") && !starts_with_chars(&t, "<"))
            || (starts_with_chars(&t, "Document(") && contains_chars(&t, "Prefix(")) {
            Some(ParserFormat::OwlFunctional)
        } else if starts_with_chars(&t, "@prefix") || starts_with_chars(&t, "PREFIX") {
            Some(ParserFormat::Turtle)
        } else {
            let mut end: usize = 0;
            while end < cs.len() && cs[end] != '\n'
                invariant
                    end <= cs@.len(),
                    forall|j: int| 0 <= j < end ==> cs@[j] != '\n',
                decreases cs@.len() - end,
            {
                end += 1;
            }
            proof {
                lemma_until_at(cs@, 0, end as int, '\n');
                if end < cs@.len() {
                    lemma_until_range(cs@, 0);
                }
                assert(cs@.subrange(0, cs@.len() as int) =~= cs@);
            }
            let first = slice_chars(&cs, 0, end);
            assert(first@ == segments(cs@)[0]);
            if contains_chars(&first, "> <") && contains_chars(&first, " .") {
                Some(ParserFormat::NTriples)
            } else {
                None
            }
        }
    }
}

} // verus!
