//! The schema model: parsing `SEQUENCE` definitions out of tokens, and
//! resolving their field types into a wire layout.
use vstd::prelude::*;
use vstd::string::*;

use crate::bounds::{bounds_value, parse_bounds};
use crate::lexer::{str_eq, tokenizer, tokens_of, views};
use crate::oer::{lemma_pow256_values, pow256, valid_width, Schema, WireField, WireSequence, WireType};

verus! {

/// The type of a field as the schema writes it.
#[derive(Clone, Copy, Debug, PartialEq, Eq)]
pub enum AsnType<'a> {
    /// `INTEGER` with no bounds.
    Integer,
    /// `INTEGER (min..max)`.
    BoundedInteger { min: i128, max: i128 },
    /// The name of another type of the module.
    Custom(&'a str),
}

/// A named field of a sequence.
#[derive(Clone, Copy, Debug, PartialEq, Eq)]
pub struct AsnField<'a> {
    pub name: &'a str,
    pub field_type: AsnType<'a>,
}

/// A `SEQUENCE` definition: its name and its fields in declared order.
pub struct AsnSequence<'a> {
    pub name: &'a str,
    pub fields: Vec<AsnField<'a>>,
}

/// A type alias, `Name ::= TYPE`.
#[derive(Clone, Copy, Debug, PartialEq, Eq)]
pub struct AsnAlias<'a> {
    pub name: &'a str,
    pub alias_type: AsnType<'a>,
}

/// A parsed module: its name, its sequences and its type aliases, each in
/// the order of the text.
pub struct AsnModule<'a> {
    pub name: &'a str,
    pub sequences: Vec<AsnSequence<'a>>,
    pub type_aliases: Vec<AsnAlias<'a>>,
}

/// Why schema text could not be parsed.
#[derive(Clone, Copy, Debug, PartialEq, Eq, Structural)]
pub enum ParseError {
    /// The text holds no token.
    EmptyInput,
    /// A field list ran to the end of the text without a closing brace.
    UnterminatedSequence,
    /// A bound expression is not of the form `(min..max)`.
    MalformedBound,
    /// A token stands where the grammar allows no such token.
    UnexpectedToken,
    /// Two sequences, or two aliases, have the same name.
    DuplicateName,
}

/// The model of a field type: names are character sequences.
pub enum TypeModel {
    Integer,
    Bounded(i128, i128),
    Custom(Seq<char>),
}

/// The model of a field: its name and its type.
pub struct FieldModel {
    pub name: Seq<char>,
    pub ty: TypeModel,
}

/// The model of a sequence: its name and its fields.
pub struct SequenceModel {
    pub name: Seq<char>,
    pub fields: Seq<FieldModel>,
}

/// The model of a type alias: its name and the type it stands for.
pub struct AliasModel {
    pub name: Seq<char>,
    pub ty: TypeModel,
}

/// The model of a module: its name, its sequences and its aliases.
pub struct ModuleModel {
    pub name: Seq<char>,
    pub sequences: Seq<SequenceModel>,
    pub aliases: Seq<AliasModel>,
}

impl<'a> AsnType<'a> {
    pub open spec fn model(&self) -> TypeModel {
        match *self {
            AsnType::Integer => TypeModel::Integer,
            AsnType::BoundedInteger { min, max } => TypeModel::Bounded(min, max),
            AsnType::Custom(n) => TypeModel::Custom(n@),
        }
    }
}

impl<'a> AsnField<'a> {
    pub open spec fn model(&self) -> FieldModel {
        FieldModel { name: self.name@, ty: self.field_type.model() }
    }
}

pub open spec fn field_models<'a>(v: Seq<AsnField<'a>>) -> Seq<FieldModel> {
    v.map_values(|f: AsnField<'a>| f.model())
}

impl<'a> AsnSequence<'a> {
    pub open spec fn model(&self) -> SequenceModel {
        SequenceModel { name: self.name@, fields: field_models(self.fields@) }
    }
}

pub open spec fn sequence_models<'a>(v: Seq<AsnSequence<'a>>) -> Seq<SequenceModel> {
    v.map_values(|q: AsnSequence<'a>| q.model())
}

impl<'a> AsnAlias<'a> {
    pub open spec fn model(&self) -> AliasModel {
        AliasModel { name: self.name@, ty: self.alias_type.model() }
    }
}

pub open spec fn alias_models<'a>(v: Seq<AsnAlias<'a>>) -> Seq<AliasModel> {
    v.map_values(|d: AsnAlias<'a>| d.model())
}

impl<'a> AsnModule<'a> {
    /// No two sequences share a name, and no two aliases do.
    pub open spec fn wf(&self) -> bool {
        &&& forall|a: int, b: int|
            0 <= a < b < self.sequences@.len() ==> self.sequences@[a].name@ != self.sequences@[b].name@
        &&& forall|a: int, b: int|
            0 <= a < b < self.type_aliases@.len() ==> self.type_aliases@[a].name@
                != self.type_aliases@[b].name@
    }

    pub open spec fn model(&self) -> ModuleModel {
        ModuleModel {
            name: self.name@,
            sequences: sequence_models(self.sequences@),
            aliases: alias_models(self.type_aliases@),
        }
    }
}

/// The type that a span of one or two tokens spells: `INTEGER`,
/// `INTEGER (min..max)`, or the name of another type.
pub open spec fn type_of_span(span: Seq<Seq<char>>) -> Result<TypeModel, ParseError> {
    if span.len() == 1 {
        if span[0] == "INTEGER"@ {
            Ok(TypeModel::Integer)
        } else {
            Ok(TypeModel::Custom(span[0]))
        }
    } else if span.len() == 2 && span[0] == "INTEGER"@ {
        match bounds_value(span[1]) {
            Some((lo, hi)) => Ok(TypeModel::Bounded(lo, hi)),
            None => Err(ParseError::MalformedBound),
        }
    } else {
        Err(ParseError::UnexpectedToken)
    }
}

/// Whether a token ends a field: a comma or a closing brace.
pub open spec fn ends_field(t: Seq<char>) -> bool {
    t == ","@ || t == "}"@
}

/// Index of the first token at or after `i` that ends a field, or the
/// number of tokens.
pub open spec fn field_end(toks: Seq<Seq<char>>, i: int) -> int
    decreases toks.len() - i,
{
    if i < 0 || i >= toks.len() {
        toks.len() as int
    } else if ends_field(toks[i]) {
        i
    } else {
        field_end(toks, i + 1)
    }
}

/// The fields whose first name token is at `j`: a name, a type span ended by
/// a comma (more fields follow) or by a closing brace (the list ends).
pub open spec fn fields_at(toks: Seq<Seq<char>>, j: int) -> Result<Seq<FieldModel>, ParseError>
    decreases toks.len() - j,
{
    if j < 0 || j >= toks.len() {
        Err(ParseError::UnterminatedSequence)
    } else {
        let e = field_end(toks, j + 1);
        if e >= toks.len() || e <= j {
            Err(ParseError::UnterminatedSequence)
        } else {
            match type_of_span(toks.subrange(j + 1, e)) {
                Err(x) => Err(x),
                Ok(ty) => {
                    let f = FieldModel { name: toks[j], ty };
                    if toks[e] == "}"@ {
                        Ok(seq![f])
                    } else {
                        match fields_at(toks, e + 1) {
                            Ok(fs) => Ok(seq![f] + fs),
                            Err(x) => Err(x),
                        }
                    }
                },
            }
        }
    }
}

/// The sequence whose `SEQUENCE` keyword is token `k`: `Name ::= SEQUENCE {`
/// followed by its fields.
pub open spec fn sequence_at(toks: Seq<Seq<char>>, k: int) -> Result<SequenceModel, ParseError> {
    if k < 2 || k + 1 >= toks.len() || toks[k - 1] != "::="@ || toks[k + 1] != "{"@ {
        Err(ParseError::UnexpectedToken)
    } else {
        match fields_at(toks, k + 2) {
            Ok(fs) => Ok(SequenceModel { name: toks[k - 2], fields: fs }),
            Err(x) => Err(x),
        }
    }
}

/// `front` put before the sequences that `r` parsed.
pub open spec fn glue(front: Seq<SequenceModel>, r: Result<Seq<SequenceModel>, ParseError>) -> Result<
    Seq<SequenceModel>,
    ParseError,
> {
    match r {
        Ok(qs) => Ok(front + qs),
        Err(x) => Err(x),
    }
}

/// The sequences whose keyword is at `k` or later, in order.
pub open spec fn sequences_from(toks: Seq<Seq<char>>, k: int) -> Result<Seq<SequenceModel>, ParseError>
    decreases toks.len() - k,
{
    if k < 0 || k >= toks.len() {
        Ok(Seq::empty())
    } else if toks[k] == "SEQUENCE"@ {
        match sequence_at(toks, k) {
            Ok(q) => glue(seq![q], sequences_from(toks, k + 1)),
            Err(x) => Err(x),
        }
    } else {
        sequences_from(toks, k + 1)
    }
}

/// Whether no two sequences share a name.
pub open spec fn names_unique(qs: Seq<SequenceModel>) -> bool {
    forall|a: int, b: int| 0 <= a < b < qs.len() ==> qs[a].name != qs[b].name
}

/// Whether no two aliases share a name.
pub open spec fn alias_names_unique(ds: Seq<AliasModel>) -> bool {
    forall|a: int, b: int| 0 <= a < b < ds.len() ==> ds[a].name != ds[b].name
}

/// Whether the token after `::=` at `k` starts an alias: it is neither
/// `SEQUENCE` nor the `BEGIN` of the module header.
pub open spec fn starts_alias(toks: Seq<Seq<char>>, k: int) -> bool {
    k + 1 < toks.len() && toks[k + 1] != "SEQUENCE"@ && toks[k + 1] != "BEGIN"@
}

/// The end of the type span of the alias whose `::=` is at `k`: two tokens
/// for `INTEGER` followed by a parenthesised bound, else one.
pub open spec fn alias_end(toks: Seq<Seq<char>>, k: int) -> int {
    if k + 2 < toks.len() && toks[k + 1] == "INTEGER"@ && toks[k + 2].len() > 0 && toks[k + 2][0] == '(' {
        k + 3
    } else {
        k + 2
    }
}

/// The alias whose `::=` is token `k`: `Name ::= TYPE`.
pub open spec fn alias_at(toks: Seq<Seq<char>>, k: int) -> Result<AliasModel, ParseError> {
    if k < 1 || k + 1 >= toks.len() {
        Err(ParseError::UnexpectedToken)
    } else {
        match type_of_span(toks.subrange(k + 1, alias_end(toks, k))) {
            Ok(ty) => Ok(AliasModel { name: toks[k - 1], ty }),
            Err(x) => Err(x),
        }
    }
}

/// `front` put before the aliases that `r` parsed.
pub open spec fn glue_aliases(front: Seq<AliasModel>, r: Result<Seq<AliasModel>, ParseError>) -> Result<
    Seq<AliasModel>,
    ParseError,
> {
    match r {
        Ok(ds) => Ok(front + ds),
        Err(x) => Err(x),
    }
}

/// The aliases whose `::=` is at `k` or later, in order.
pub open spec fn aliases_from(toks: Seq<Seq<char>>, k: int) -> Result<Seq<AliasModel>, ParseError>
    decreases toks.len() - k,
{
    if k < 0 || k >= toks.len() {
        Ok(Seq::empty())
    } else if toks[k] == "::="@ && starts_alias(toks, k) {
        match alias_at(toks, k) {
            Ok(d) => glue_aliases(seq![d], aliases_from(toks, k + 1)),
            Err(x) => Err(x),
        }
    } else {
        aliases_from(toks, k + 1)
    }
}

/// The module that the tokens spell: its name is the first token.
pub open spec fn module_of(toks: Seq<Seq<char>>) -> Result<ModuleModel, ParseError> {
    if toks.len() == 0 {
        Err(ParseError::EmptyInput)
    } else {
        match sequences_from(toks, 0) {
            Ok(qs) => if names_unique(qs) {
                match aliases_from(toks, 0) {
                    Ok(ds) => if alias_names_unique(ds) {
                        Ok(ModuleModel { name: toks[0], sequences: qs, aliases: ds })
                    } else {
                        Err(ParseError::DuplicateName)
                    },
                    Err(x) => Err(x),
                }
            } else {
                Err(ParseError::DuplicateName)
            },
            Err(x) => Err(x),
        }
    }
}

/// The type that tokens `from..to` spell.
fn span_type<'a>(toks: &Vec<&'a str>, from: usize, to: usize) -> (r: Result<AsnType<'a>, ParseError>)
    requires
        from <= to <= toks@.len(),
    ensures
        match type_of_span(views(toks@).subrange(from as int, to as int)) {
            Ok(m) => r is Ok && r->Ok_0.model() == m,
            Err(e) => r == Err::<AsnType<'a>, ParseError>(e),
        },
{
    let ghost span = views(toks@).subrange(from as int, to as int);
    if to - from == 1 {
        assert(span[0] == toks@[from as int]@);
        if str_eq(toks[from], "INTEGER") {
            Ok(AsnType::Integer)
        } else {
            Ok(AsnType::Custom(toks[from]))
        }
    } else if to - from == 2 && str_eq(toks[from], "INTEGER") {
        assert(span[0] == toks@[from as int]@);
        assert(span[1] == toks@[from + 1]@);
        match parse_bounds(toks[from + 1]) {
            Some((min, max)) => Ok(AsnType::BoundedInteger { min, max }),
            None => Err(ParseError::MalformedBound),
        }
    } else {
        proof {
            if to - from == 2 {
                assert(span[0] == toks@[from as int]@);
            }
        }
        Err(ParseError::UnexpectedToken)
    }
}

/// Index of the first token at or after `i` that ends a field.
fn find_field_end(toks: &Vec<&str>, i: usize) -> (r: usize)
    ensures
        r == field_end(views(toks@), i as int),
        i <= toks@.len() ==> i <= r <= toks@.len(),
{
    let mut e: usize = i;
    if e > toks.len() {
        return toks.len();
    }
    while e < toks.len() && !(str_eq(toks[e], ",") || str_eq(toks[e], "}"))
        invariant
            i <= e <= toks@.len(),
            field_end(views(toks@), i as int) == field_end(views(toks@), e as int),
        decreases toks@.len() - e,
    {
        e = e + 1;
    }
    e
}

/// Parses the fields whose first name token is at `j`, appending them to
/// `out`.
fn parse_fields<'a>(toks: &Vec<&'a str>, j: usize, out: &mut Vec<AsnField<'a>>) -> (r: Result<(), ParseError>)
    ensures
        match fields_at(views(toks@), j as int) {
            Ok(fs) => r is Ok && field_models(final(out)@) == field_models(old(out)@) + fs,
            Err(e) => r == Err::<(), ParseError>(e),
        },
    decreases toks@.len() - j,
{
    if j >= toks.len() {
        return Err(ParseError::UnterminatedSequence);
    }
    let e = find_field_end(toks, j + 1);
    if e >= toks.len() || e <= j {
        return Err(ParseError::UnterminatedSequence);
    }
    let field_type = match span_type(toks, j + 1, e) {
        Ok(t) => t,
        Err(x) => return Err(x),
    };
    let field = AsnField { name: toks[j], field_type };
    let ghost before = out@;
    out.push(field);
    assert(field_models(out@) =~= field_models(before).push(field.model()));
    assert(views(toks@)[j as int] == toks@[j as int]@);
    assert(views(toks@)[e as int] == toks@[e as int]@);
    if str_eq(toks[e], "}") {
        assert(field_models(before).push(field.model()) =~= field_models(before) + seq![field.model()]);
        return Ok(());
    }
    let ghost mid = out@;
    let r = parse_fields(toks, e + 1, out);
    proof {
        if let Ok(fs) = fields_at(views(toks@), e as int + 1) {
            assert(field_models(before) + (seq![field.model()] + fs) =~= field_models(mid) + fs);
        }
    }
    r
}

impl<'a> AsnSequence<'a> {
    /// Parses the sequence whose `SEQUENCE` keyword is token `index`:
    /// `Name ::= SEQUENCE { field TYPE , ... }`.
    pub fn from_tokens(toks: &Vec<&'a str>, index: usize) -> (r: Result<AsnSequence<'a>, ParseError>)
        ensures
            match sequence_at(views(toks@), index as int) {
                Ok(m) => r is Ok && r->Ok_0.model() == m,
                Err(e) => r == Err::<AsnSequence<'a>, ParseError>(e),
            },
    {
        if index < 2 || index >= toks.len() || index + 1 == toks.len() || !str_eq(toks[index - 1], "::=") || !str_eq(
            toks[index + 1],
            "{",
        ) {
            proof {
                if 2 <= index && index + 1 < toks@.len() {
                    assert(views(toks@)[index - 1] == toks@[index - 1]@);
                    assert(views(toks@)[index + 1] == toks@[index + 1]@);
                }
            }
            return Err(ParseError::UnexpectedToken);
        }
        assert(views(toks@)[index - 1] == toks@[index - 1]@);
        assert(views(toks@)[index + 1] == toks@[index + 1]@);
        assert(views(toks@)[index - 2] == toks@[index - 2]@);
        let mut fields: Vec<AsnField<'a>> = Vec::new();
        match parse_fields(toks, index + 2, &mut fields) {
            Ok(()) => {
                let ghost fs = fields_at(views(toks@), index + 2)->Ok_0;
                assert(field_models(Seq::<AsnField<'a>>::empty()) + fs =~= fs);
                Ok(AsnSequence { name: toks[index - 2], fields })
            },
            Err(x) => Err(x),
        }
    }
}

/// Whether no two of `seqs` share a name.
fn names_are_unique(seqs: &Vec<AsnSequence>) -> (r: bool)
    ensures
        r == names_unique(sequence_models(seqs@)),
{
    let ghost m = sequence_models(seqs@);
    let mut i: usize = 0;
    while i < seqs.len()
        invariant
            i <= seqs@.len(),
            m == sequence_models(seqs@),
            forall|a: int, b: int| 0 <= a < b < i ==> m[a].name != m[b].name,
        decreases seqs@.len() - i,
    {
        let mut j: usize = 0;
        while j < i
            invariant
                j <= i < seqs@.len(),
                m == sequence_models(seqs@),
                forall|a: int, b: int| 0 <= a < b < i ==> m[a].name != m[b].name,
                forall|a: int| 0 <= a < j ==> m[a].name != m[i as int].name,
            decreases i - j,
        {
            if str_eq(seqs[j].name, seqs[i].name) {
                assert(m[j as int].name == m[i as int].name);
                return false;
            }
            j = j + 1;
        }
        i = i + 1;
    }
    true
}

/// Whether no two of `aliases` share a name.
fn alias_names_are_unique(aliases: &Vec<AsnAlias>) -> (r: bool)
    ensures
        r == alias_names_unique(alias_models(aliases@)),
{
    let ghost m = alias_models(aliases@);
    let mut i: usize = 0;
    while i < aliases.len()
        invariant
            i <= aliases@.len(),
            m == alias_models(aliases@),
            forall|a: int, b: int| 0 <= a < b < i ==> m[a].name != m[b].name,
        decreases aliases@.len() - i,
    {
        let mut j: usize = 0;
        while j < i
            invariant
                j <= i < aliases@.len(),
                m == alias_models(aliases@),
                forall|a: int, b: int| 0 <= a < b < i ==> m[a].name != m[b].name,
                forall|a: int| 0 <= a < j ==> m[a].name != m[i as int].name,
            decreases i - j,
        {
            if str_eq(aliases[j].name, aliases[i].name) {
                assert(m[j as int].name == m[i as int].name);
                return false;
            }
            j = j + 1;
        }
        i = i + 1;
    }
    true
}

/// Whether the `::=` at `k` starts an alias.
fn alias_starts_at(toks: &Vec<&str>, k: usize) -> (r: bool)
    ensures
        r == starts_alias(views(toks@), k as int),
{
    if k >= toks.len() || k + 1 == toks.len() {
        return false;
    }
    assert(views(toks@)[k + 1] == toks@[k + 1]@);
    !str_eq(toks[k + 1], "SEQUENCE") && !str_eq(toks[k + 1], "BEGIN")
}

impl<'a> AsnAlias<'a> {
    /// Parses the alias whose `::=` is token `index`: `Name ::= TYPE`.
    pub fn from_tokens(toks: &Vec<&'a str>, index: usize) -> (r: Result<AsnAlias<'a>, ParseError>)
        ensures
            match alias_at(views(toks@), index as int) {
                Ok(m) => r is Ok && r->Ok_0.model() == m,
                Err(e) => r == Err::<AsnAlias<'a>, ParseError>(e),
            },
    {
        if index < 1 || index >= toks.len() || index + 1 == toks.len() {
            return Err(ParseError::UnexpectedToken);
        }
        let ghost v = views(toks@);
        assert(v[index + 1] == toks@[index + 1]@);
        assert(v[index - 1] == toks@[index - 1]@);
        let mut end = index + 2;
        if index + 2 < toks.len() && str_eq(toks[index + 1], "INTEGER") {
            let bound = toks[index + 2];
            assert(v[index + 2] == bound@);
            if bound.unicode_len() > 0 && bound.get_char(0) == '(' {
                end = index + 3;
            }
        }
        assert(end == alias_end(v, index as int));
        match span_type(toks, index + 1, end) {
            Ok(alias_type) => Ok(AsnAlias { name: toks[index - 1], alias_type }),
            Err(x) => Err(x),
        }
    }
}

impl<'a> AsnModule<'a> {
    /// Parses schema text: the module name is its first token, and each
    /// `Name ::= SEQUENCE { ... }` block becomes a sequence.
    pub fn parse(s: &'a str) -> (r: Result<AsnModule<'a>, ParseError>)
        ensures
            match module_of(tokens_of(s@, true)) {
                Ok(m) => r is Ok && r->Ok_0.model() == m,
                Err(e) => r == Err::<AsnModule<'a>, ParseError>(e),
            },
            r matches Ok(m) ==> m.wf(),
    {
        let toks = tokenizer(s);
        let ghost v = views(toks@);
        if toks.len() == 0 {
            return Err(ParseError::EmptyInput);
        }
        let mut sequences: Vec<AsnSequence<'a>> = Vec::new();
        let mut k: usize = 0;
        proof {
            if let Ok(qs) = sequences_from(v, 0) {
                assert(sequence_models(sequences@) + qs =~= qs);
            }
        }
        while k < toks.len()
            invariant
                k <= toks@.len(),
                v == views(toks@),
                v == tokens_of(s@, true),
                v.len() > 0,
                sequences_from(v, 0) == glue(sequence_models(sequences@), sequences_from(v, k as int)),
            decreases toks@.len() - k,
        {
            assert(v[k as int] == toks@[k as int]@);
            if str_eq(toks[k], "SEQUENCE") {
                match AsnSequence::from_tokens(&toks, k) {
                    Ok(q) => {
                        let ghost before = sequence_models(sequences@);
                        sequences.push(q);
                        assert(sequence_models(sequences@) =~= before.push(q.model()));
                        proof {
                            if let Ok(qs) = sequences_from(v, k + 1) {
                                assert(before + (seq![q.model()] + qs) =~= before.push(q.model()) + qs);
                            }
                        }
                    },
                    Err(x) => {
                        assert(sequences_from(v, k as int) == Err::<Seq<SequenceModel>, ParseError>(x));
                        return Err(x);
                    },
                }
            }
            k = k + 1;
        }
        proof {
            if let Ok(qs) = sequences_from(v, 0) {
                assert(qs =~= sequence_models(sequences@) + Seq::<SequenceModel>::empty());
            }
        }
        if !names_are_unique(&sequences) {
            return Err(ParseError::DuplicateName);
        }
        proof {
            if let Ok(qs) = sequences_from(v, 0) {
                assert(qs == sequence_models(sequences@));
            }
        }
        let mut type_aliases: Vec<AsnAlias<'a>> = Vec::new();
        let mut k: usize = 0;
        proof {
            if let Ok(ds) = aliases_from(v, 0) {
                assert(alias_models(type_aliases@) + ds =~= ds);
            }
        }
        while k < toks.len()
            invariant
                k <= toks@.len(),
                v == views(toks@),
                v == tokens_of(s@, true),
                v.len() > 0,
                sequences_from(v, 0) == Ok::<Seq<SequenceModel>, ParseError>(sequence_models(sequences@)),
                names_unique(sequence_models(sequences@)),
                aliases_from(v, 0) == glue_aliases(alias_models(type_aliases@), aliases_from(v, k as int)),
            decreases toks@.len() - k,
        {
            assert(v[k as int] == toks@[k as int]@);
            if str_eq(toks[k], "::=") && alias_starts_at(&toks, k) {
                match AsnAlias::from_tokens(&toks, k) {
                    Ok(d) => {
                        let ghost before = alias_models(type_aliases@);
                        type_aliases.push(d);
                        assert(alias_models(type_aliases@) =~= before.push(d.model()));
                        proof {
                            if let Ok(ds) = aliases_from(v, k + 1) {
                                assert(before + (seq![d.model()] + ds) =~= before.push(d.model()) + ds);
                            }
                        }
                    },
                    Err(x) => {
                        assert(aliases_from(v, k as int) == Err::<Seq<AliasModel>, ParseError>(x));
                        return Err(x);
                    },
                }
            }
            k = k + 1;
        }
        proof {
            if let Ok(ds) = aliases_from(v, 0) {
                assert(ds =~= alias_models(type_aliases@) + Seq::<AliasModel>::empty());
            }
        }
        if !alias_names_are_unique(&type_aliases) {
            return Err(ParseError::DuplicateName);
        }
        assert(v[0] == toks@[0]@);
        let module = AsnModule { name: toks[0], sequences, type_aliases };
        proof {
            let qm = sequence_models(module.sequences@);
            let dm = alias_models(module.type_aliases@);
            assert forall|a: int, b: int| 0 <= a < b < module.sequences@.len() implies module.sequences@[a].name@
                != module.sequences@[b].name@ by {
                assert(qm[a].name != qm[b].name);
            }
            assert forall|a: int, b: int| 0 <= a < b < module.type_aliases@.len() implies module.type_aliases@[a].name@
                != module.type_aliases@[b].name@ by {
                assert(dm[a].name != dm[b].name);
            }
        }
        Ok(module)
    }

    /// The sequence named `name`, if the module has one.
    pub fn sequence(&self, name: &str) -> (r: Option<&AsnSequence<'a>>)
        ensures
            match r {
                Some(q) => q.name@ == name@ && self.sequences@.contains(*q),
                None => forall|i: int| 0 <= i < self.sequences@.len() ==> self.sequences@[i].name@ != name@,
            },
    {
        let mut i: usize = 0;
        while i < self.sequences.len()
            invariant
                i <= self.sequences@.len(),
                forall|j: int| 0 <= j < i ==> self.sequences@[j].name@ != name@,
            decreases self.sequences@.len() - i,
        {
            if str_eq(self.sequences[i].name, name) {
                return Some(&self.sequences[i]);
            }
            i = i + 1;
        }
        None
    }
}

/// Why a parsed module could not be resolved into a wire layout.
#[derive(Clone, Copy, Debug, PartialEq, Eq)]
pub enum ResolveError<'a> {
    /// A field names a type that is no sequence of the module.
    UnresolvedType(&'a str),
    /// Bounds whose lower end is not zero, or whose upper end is below it.
    InvalidBounds(i128, i128),
    /// An upper bound beyond what eight octets hold.
    UnsupportedWidth,
    /// Aliases that, followed from this name, stand for each other in a
    /// cycle.
    AliasCycle(&'a str),
}

/// The fewest octets among 1, 2, 4 and 8 whose unsigned range reaches
/// `max`, for `max >= 0`.
pub open spec fn width_for(max: int) -> Option<usize> {
    if max < pow256(1) {
        Some(1)
    } else if max < pow256(2) {
        Some(2)
    } else if max < pow256(4) {
        Some(4)
    } else if max < pow256(8) {
        Some(8)
    } else {
        None
    }
}

/// Index of the first of `seqs` at or after `i` named `name`, or -1.
pub open spec fn sequence_index_from<'a>(seqs: Seq<AsnSequence<'a>>, name: Seq<char>, i: int) -> int
    decreases seqs.len() - i,
{
    if i < 0 || i >= seqs.len() {
        -1
    } else if seqs[i].name@ == name {
        i
    } else {
        sequence_index_from(seqs, name, i + 1)
    }
}

pub proof fn lemma_sequence_index_range<'a>(seqs: Seq<AsnSequence<'a>>, name: Seq<char>, i: int)
    ensures
        sequence_index_from(seqs, name, i) == -1 || (0 <= i <= sequence_index_from(seqs, name, i)
            < seqs.len()),
    decreases seqs.len() - i,
{
    if 0 <= i < seqs.len() && seqs[i].name@ != name {
        lemma_sequence_index_range(seqs, name, i + 1);
    }
}

/// Index of the first of `ds` at or after `i` named `name`, or -1.
pub open spec fn alias_index_from<'a>(ds: Seq<AsnAlias<'a>>, name: Seq<char>, i: int) -> int
    decreases ds.len() - i,
{
    if i < 0 || i >= ds.len() {
        -1
    } else if ds[i].name@ == name {
        i
    } else {
        alias_index_from(ds, name, i + 1)
    }
}

pub proof fn lemma_alias_index_range<'a>(ds: Seq<AsnAlias<'a>>, name: Seq<char>, i: int)
    ensures
        alias_index_from(ds, name, i) == -1 || (0 <= i <= alias_index_from(ds, name, i) < ds.len()),
    decreases ds.len() - i,
{
    if 0 <= i < ds.len() && ds[i].name@ != name {
        lemma_alias_index_range(ds, name, i + 1);
    }
}

/// The wire type of type `t` in a module with sequences `seqs` and aliases
/// `ds`, following at most `fuel` aliases. A name is looked up among the
/// aliases first, then among the sequences.
pub open spec fn type_resolution<'a>(
    seqs: Seq<AsnSequence<'a>>,
    ds: Seq<AsnAlias<'a>>,
    t: AsnType<'a>,
    fuel: nat,
) -> Result<WireType, ResolveError<'a>>
    decreases fuel,
{
    match t {
        AsnType::Integer => Ok(WireType::UnboundedInteger),
        AsnType::BoundedInteger { min, max } => if min != 0 || max < 0 {
            Err(ResolveError::InvalidBounds(min, max))
        } else {
            match width_for(max as int) {
                Some(w) => Ok(WireType::FixedUnsigned(w)),
                None => Err(ResolveError::UnsupportedWidth),
            }
        },
        AsnType::Custom(n) => {
            let a = alias_index_from(ds, n@, 0);
            if a >= 0 {
                if fuel == 0 {
                    Err(ResolveError::AliasCycle(n))
                } else {
                    type_resolution(seqs, ds, ds[a].alias_type, (fuel - 1) as nat)
                }
            } else {
                let i = sequence_index_from(seqs, n@, 0);
                if i < 0 {
                    Err(ResolveError::UnresolvedType(n))
                } else {
                    Ok(WireType::Composite(i as usize))
                }
            }
        },
    }
}

pub proof fn lemma_type_resolution_wf<'a>(
    seqs: Seq<AsnSequence<'a>>,
    ds: Seq<AsnAlias<'a>>,
    t: AsnType<'a>,
    fuel: nat,
)
    ensures
        match type_resolution(seqs, ds, t, fuel) {
            Ok(WireType::FixedUnsigned(w)) => valid_width(w as int),
            Ok(WireType::Composite(i)) => i < seqs.len(),
            _ => true,
        },
    decreases fuel,
{
    match t {
        AsnType::Custom(n) => {
            lemma_alias_index_range(ds, n@, 0);
            lemma_sequence_index_range(seqs, n@, 0);
            let a = alias_index_from(ds, n@, 0);
            if a >= 0 && fuel > 0 {
                lemma_type_resolution_wf(seqs, ds, ds[a].alias_type, (fuel - 1) as nat);
            }
        },
        _ => {
            lemma_pow256_values();
        },
    }
}

/// The octets that a fixed-size unsigned field with upper bound `max` takes:
/// the fewest among 1, 2, 4 and 8 whose range reaches `max`.
pub fn unsigned_width(max: i128) -> (r: Option<usize>)
    requires
        max >= 0,
    ensures
        r == width_for(max as int),
        r matches Some(w) ==> valid_width(w as int) && max < pow256(w as nat),
{
    proof {
        lemma_pow256_values();
    }
    if max <= 0xff {
        Some(1)
    } else if max <= 0xffff {
        Some(2)
    } else if max <= 0xffff_ffff {
        Some(4)
    } else if max <= 0xffff_ffff_ffff_ffff {
        Some(8)
    } else {
        None
    }
}

/// Index of the sequence of `seqs` named `name`.
fn sequence_index(seqs: &Vec<AsnSequence>, name: &str) -> (r: Option<usize>)
    ensures
        match r {
            Some(i) => sequence_index_from(seqs@, name@, 0) == i as int,
            None => sequence_index_from(seqs@, name@, 0) == -1,
        },
{
    let mut i: usize = seqs.len();
    let mut found: Option<usize> = None;
    // Search from the back, so that the first match wins.
    while i > 0
        invariant
            i <= seqs@.len(),
            match found {
                Some(j) => sequence_index_from(seqs@, name@, i as int) == j as int,
                None => sequence_index_from(seqs@, name@, i as int) == -1,
            },
        decreases i,
    {
        i = i - 1;
        if str_eq(seqs[i].name, name) {
            found = Some(i);
        }
    }
    found
}

/// Index of the alias of `ds` named `name`.
fn alias_index(ds: &Vec<AsnAlias>, name: &str) -> (r: Option<usize>)
    ensures
        match r {
            Some(i) => alias_index_from(ds@, name@, 0) == i as int,
            None => alias_index_from(ds@, name@, 0) == -1,
        },
{
    let mut i: usize = ds.len();
    let mut found: Option<usize> = None;
    // Search from the back, so that the first match wins.
    while i > 0
        invariant
            i <= ds@.len(),
            match found {
                Some(j) => alias_index_from(ds@, name@, i as int) == j as int,
                None => alias_index_from(ds@, name@, i as int) == -1,
            },
        decreases i,
    {
        i = i - 1;
        if str_eq(ds[i].name, name) {
            found = Some(i);
        }
    }
    found
}

impl<'a> AsnModule<'a> {
    /// The wire type of type `t` in this module: aliases followed, bounds
    /// turned into a width, names of sequences into their index. Following
    /// more aliases than the module has means they form a cycle.
    pub open spec fn wire_type_of(&self, t: AsnType<'a>) -> Result<WireType, ResolveError<'a>> {
        type_resolution(self.sequences@, self.type_aliases@, t, self.type_aliases@.len())
    }

    fn resolve_with_fuel(&self, t: AsnType<'a>, fuel: usize) -> (r: Result<WireType, ResolveError<'a>>)
        ensures
            r == type_resolution(self.sequences@, self.type_aliases@, t, fuel as nat),
        decreases fuel,
    {
        match t {
            AsnType::Integer => Ok(WireType::UnboundedInteger),
            AsnType::BoundedInteger { min, max } => {
                if min != 0 || max < 0 {
                    return Err(ResolveError::InvalidBounds(min, max));
                }
                match unsigned_width(max) {
                    Some(w) => Ok(WireType::FixedUnsigned(w)),
                    None => Err(ResolveError::UnsupportedWidth),
                }
            },
            AsnType::Custom(n) => match alias_index(&self.type_aliases, n) {
                Some(a) => {
                    if fuel == 0 {
                        return Err(ResolveError::AliasCycle(n));
                    }
                    proof {
                        lemma_alias_index_range(self.type_aliases@, n@, 0);
                    }
                    self.resolve_with_fuel(self.type_aliases[a].alias_type, fuel - 1)
                },
                None => match sequence_index(&self.sequences, n) {
                    Some(i) => Ok(WireType::Composite(i)),
                    None => Err(ResolveError::UnresolvedType(n)),
                },
            },
        }
    }

    /// The wire type of type `t` in this module.
    pub fn resolve_type(&self, t: AsnType<'a>) -> (r: Result<WireType, ResolveError<'a>>)
        ensures
            r == self.wire_type_of(t),
    {
        self.resolve_with_fuel(t, self.type_aliases.len())
    }

    /// Whether field `k` of sequence `s` resolves.
    pub open spec fn field_resolves(&self, s: int, k: int) -> bool {
        self.wire_type_of(self.sequences@[s].fields@[k].field_type) is Ok
    }

    /// Whether field `k` of sequence `s` is the first field, in declared
    /// order, that does not resolve.
    pub open spec fn first_failure(&self, s: int, k: int) -> bool {
        &&& 0 <= s < self.sequences@.len()
        &&& 0 <= k < self.sequences@[s].fields@.len()
        &&& !self.field_resolves(s, k)
        &&& forall|a: int, j: int|
            0 <= a < self.sequences@.len() && 0 <= j < self.sequences@[a].fields@.len() && (a < s || (a == s
                && j < k)) ==> #[trigger] self.field_resolves(a, j)
    }

    /// Whether `w` is sequence `a` of this module with each field type
    /// resolved: same name, same fields in the same order.
    pub open spec fn sequence_resolves_to(&self, a: int, w: WireSequence<'a>) -> bool {
        &&& w.name@ == self.sequences@[a].name@
        &&& w.fields@.len() == self.sequences@[a].fields@.len()
        &&& forall|k: int|
            0 <= k < w.fields@.len() ==> {
                &&& #[trigger] w.fields@[k].name@ == self.sequences@[a].fields@[k].name@
                &&& Ok::<WireType, ResolveError<'a>>(w.fields@[k].wire_type) == self.wire_type_of(self.sequences@[a].fields@[k].field_type,
                )
            }
    }

    /// Whether `schema` is this module with each field type resolved.
    pub open spec fn resolves_to(&self, schema: Schema<'a>) -> bool {
        &&& schema.name@ == self.name@
        &&& schema.sequences@.len() == self.sequences@.len()
        &&& forall|a: int|
            0 <= a < self.sequences@.len() ==> #[trigger] self.sequence_resolves_to(a, schema.sequences@[a])
    }

    /// Resolves every field type into its wire type. Succeeds exactly when
    /// every field resolves; otherwise gives the error of a field that does
    /// not.
    pub fn resolve(&self) -> (r: Result<Schema<'a>, ResolveError<'a>>)
        ensures
            r is Ok <==> forall|s: int, k: int|
                0 <= s < self.sequences@.len() && 0 <= k < self.sequences@[s].fields@.len()
                    ==> #[trigger] self.field_resolves(s, k),
            r matches Ok(schema) ==> self.resolves_to(schema) && schema.wf(),
            r matches Err(e) ==> exists|s: int, k: int|
                #![trigger self.wire_type_of(self.sequences@[s].fields@[k].field_type)]
                self.first_failure(s, k) && self.wire_type_of(self.sequences@[s].fields@[k].field_type)
                    == Err::<WireType, ResolveError<'a>>(e),
    {
        let mut out: Vec<WireSequence<'a>> = Vec::new();
        let mut s: usize = 0;
        while s < self.sequences.len()
            invariant
                s <= self.sequences@.len(),
                out@.len() == s,
                forall|a: int, k: int|
                    0 <= a < s && 0 <= k < self.sequences@[a].fields@.len() ==> #[trigger] self.field_resolves(a, k),
                forall|a: int| 0 <= a < s ==> #[trigger] self.sequence_resolves_to(a, out@[a]),
            decreases self.sequences@.len() - s,
        {
            let q = &self.sequences[s];
            let mut fields: Vec<WireField<'a>> = Vec::new();
            let mut k: usize = 0;
            while k < q.fields.len()
                invariant
                    s < self.sequences@.len(),
                    *q == self.sequences@[s as int],
                    k <= q.fields@.len(),
                    fields@.len() == k,
                    forall|j: int| 0 <= j < k ==> #[trigger] self.field_resolves(s as int, j),
                    forall|a: int, j: int|
                        0 <= a < s && 0 <= j < self.sequences@[a].fields@.len() ==> #[trigger] self.field_resolves(a, j),
                    forall|j: int|
                        0 <= j < k ==> {
                            &&& #[trigger] fields@[j].name@ == q.fields@[j].name@
                            &&& Ok::<WireType, ResolveError<'a>>(fields@[j].wire_type) == self.wire_type_of(q.fields@[j].field_type)
                        },
                decreases q.fields@.len() - k,
            {
                let f = &q.fields[k];
                match self.resolve_type(f.field_type) {
                    Ok(wire_type) => {
                        fields.push(WireField { name: f.name, wire_type });
                    },
                    Err(e) => {
                        assert(self.wire_type_of(self.sequences@[s as int].fields@[k as int].field_type) == Err::<WireType, ResolveError<'a>>(e));
                        assert(!self.field_resolves(s as int, k as int));
                        assert forall|a: int, j: int|
                            0 <= a < self.sequences@.len() && 0 <= j < self.sequences@[a].fields@.len() && (a < s
                                || (a == s && j < k)) implies #[trigger] self.field_resolves(a, j) by {
                            if a == s {
                                assert(self.field_resolves(s as int, j));
                            }
                        }
                        assert(self.first_failure(s as int, k as int));
                        return Err(e);
                    },
                }
                k = k + 1;
            }
            let ghost before = out@;
            let ghost new_fields = fields@;
            out.push(WireSequence { name: q.name, fields });
            proof {
                assert(self.sequence_resolves_to(s as int, out@[s as int])) by {
                    let w = out@[s as int];
                    assert(w.fields@ == new_fields);
                    assert(w.name@ == self.sequences@[s as int].name@);
                    assert forall|k: int| 0 <= k < w.fields@.len() implies {
                        &&& #[trigger] w.fields@[k].name@ == self.sequences@[s as int].fields@[k].name@
                        &&& Ok::<WireType, ResolveError<'a>>(w.fields@[k].wire_type) == self.wire_type_of(self.sequences@[s as int].fields@[k].field_type,
                        )
                    } by {
                        assert(new_fields[k].name@ == q.fields@[k].name@);
                    }
                }
                assert forall|a: int| 0 <= a < s implies #[trigger] self.sequence_resolves_to(a, out@[a]) by {
                    assert(out@[a] == before[a]);
                }
            }
            s = s + 1;
        }
        let schema = Schema { name: self.name, sequences: out };
        proof {
            assert forall|a: int, k: int|
                0 <= a < schema.sequences@.len() && 0 <= k < schema.field_count(a) implies match #[trigger] schema.field_type(a, k) {
                WireType::FixedUnsigned(w) => valid_width(w as int),
                WireType::Composite(t) => t < schema.sequences@.len(),
                WireType::UnboundedInteger => true,
            } by {
                assert(self.sequence_resolves_to(a, out@[a]));
                assert(out@[a].fields@[k].name@ == self.sequences@[a].fields@[k].name@);
                let t = self.sequences@[a].fields@[k].field_type;
                lemma_type_resolution_wf(self.sequences@, self.type_aliases@, t, self.type_aliases@.len());
            }
        }
        Ok(schema)
    }
}

} // verus!
