//! Metadata records and the wire-field decoder.
//!
//! A metadata record maps a numeric identifier to a target name and an
//! ordered list of field names, sent once and referenced by index from many
//! later field records.  The decoder turns wire-format fields into typed
//! values, validating indexed names against the owning metadata, dropping
//! empty string values, and rewriting dependency-cache paths in the
//! well-known spawn-location field.

use crate::intern::{pool_extends, InternedStr, Strings};
use vstd::prelude::*;

verus! {

/// A decoded field: an interned name and a typed value.
pub struct Field {
    pub name: InternedStr,
    pub value: FieldValue,
}

/// The closed set of typed field values.
pub enum FieldValue {
    Bool(bool),
    Str(String),
    U64(u64),
    I64(i64),
    Debug(String),
}

/// A metadata record: the identifier it was registered under, its target,
/// and its positional field-name list.
pub struct Metadata {
    pub id: u64,
    pub target: InternedStr,
    pub field_names: Vec<InternedStr>,
}

/// A field name on the wire: either inline text or an index into the owning
/// metadata's field-name list.
pub enum WireName {
    Str(String),
    Index(u64),
}

/// A field value on the wire.
pub enum WireValue {
    Bool(bool),
    Str(String),
    U64(u64),
    I64(i64),
    Debug(String),
}

/// A field record on the wire.  `metadata_id` is the identifier of the
/// metadata the producer resolved an indexed name against.
pub struct WireField {
    pub name: Option<WireName>,
    pub metadata_id: Option<u64>,
    pub value: Option<WireValue>,
}

/// A metadata record on the wire.
pub struct WireMetadata {
    pub target: String,
    pub field_names: Vec<String>,
}

/// The mathematical image of a field value.
pub enum ValueModel {
    Bool(bool),
    Str(Seq<char>),
    U64(u64),
    I64(i64),
    Debug(Seq<char>),
}

/// The mathematical image of a decoded field.
pub struct FieldModel {
    pub name: Seq<char>,
    pub value: ValueModel,
}

/// The mathematical image of a metadata record.
pub struct MetaModel {
    pub id: u64,
    pub target: Seq<char>,
    pub field_names: Seq<Seq<char>>,
}

/// The well-known name of the field holding a task's name.
pub open spec fn task_name_name() -> Seq<char> {
    "task.name"@
}

/// The well-known name of the field holding a task's spawn location.
pub open spec fn spawn_location_name() -> Seq<char> {
    "spawn.location"@
}

/// The pattern recognising a dependency-cache path prefix: anything up to and
/// including a registry-source or git-checkout segment of a cargo cache.
pub open spec fn cargo_pattern() -> Seq<char> {
    ".*/\\.cargo(/registry/src/[^/]*/|/git/checkouts/)"@
}

/// The alias token that replaces a recognised dependency-cache path prefix.
pub open spec fn cargo_alias() -> Seq<char> {
    "<cargo>/"@
}

/// Whether `pat` is a valid pattern, as regex::Regex::new decides it.
pub uninterp spec fn regex_pattern_ok(pat: Seq<char>) -> bool;

/// The text regex::Regex::replace produces from a haystack: the first match
/// of `pat` in `hay` replaced by `rep`, or `hay` itself when nothing matches.
pub uninterp spec fn regex_replaced(pat: Seq<char>, hay: Seq<char>, rep: Seq<char>) -> Seq<char>;

/// Relies on regex::Regex::new and regex::Regex::replace: `new` compiles the
/// pattern and fails exactly on invalid pattern syntax; `replace` rewrites
/// the first match of the compiled pattern in the haystack with the
/// replacement, handing the haystack back unchanged when there is no match.
/// Both depend on their text arguments alone.
#[verifier::external_body]
fn regex_replace_first(pat: &str, hay: &str, rep: &str) -> (r: String)
    ensures
        regex_pattern_ok(pat@) ==> r@ == regex_replaced(pat@, hay@, rep@),
        !regex_pattern_ok(pat@) ==> r@ == hay@,
{
    match regex::Regex::new(pat) {
        Ok(re) => re.replace(hay, rep).into_owned(),
        Err(_) => hay.to_owned(),
    }
}

/// What truncating a dependency-cache path does to a text.
pub open spec fn truncated_path(s: Seq<char>) -> Seq<char> {
    if regex_pattern_ok(cargo_pattern()) {
        regex_replaced(cargo_pattern(), s, cargo_alias())
    } else {
        s
    }
}

/// Replaces a dependency-cache path prefix in `s` by the alias token.
pub fn truncate_registry_path(s: String) -> (r: String)
    ensures
        r@ == truncated_path(s@),
{
    regex_replace_first(
        ".*/\\.cargo(/registry/src/[^/]*/|/git/checkouts/)",
        s.as_str(),
        "<cargo>/",
    )
}

impl FieldValue {
    /// The mathematical image of this value.
    pub open spec fn model(&self) -> ValueModel {
        match self {
            FieldValue::Bool(b) => ValueModel::Bool(*b),
            FieldValue::Str(s) => ValueModel::Str(s@),
            FieldValue::U64(n) => ValueModel::U64(*n),
            FieldValue::I64(n) => ValueModel::I64(*n),
            FieldValue::Debug(s) => ValueModel::Debug(s@),
        }
    }
}

/// The mathematical image of a wire value.
pub open spec fn wire_value_model(v: WireValue) -> ValueModel {
    match v {
        WireValue::Bool(b) => ValueModel::Bool(b),
        WireValue::Str(s) => ValueModel::Str(s@),
        WireValue::U64(n) => ValueModel::U64(n),
        WireValue::I64(n) => ValueModel::I64(n),
        WireValue::Debug(s) => ValueModel::Debug(s@),
    }
}

/// Whether a value is a string-like value with empty text.
pub open spec fn is_empty_text(v: ValueModel) -> bool {
    match v {
        ValueModel::Str(s) => s.len() == 0,
        ValueModel::Debug(s) => s.len() == 0,
        _ => false,
    }
}

/// What spawn-location rewriting does to a value: string-like text has its
/// dependency-cache prefix truncated and is re-tagged as opaque text.
pub open spec fn truncate_model(v: ValueModel) -> ValueModel {
    match v {
        ValueModel::Str(s) => ValueModel::Debug(truncated_path(s)),
        ValueModel::Debug(s) => ValueModel::Debug(truncated_path(s)),
        _ => v,
    }
}

/// The name a wire field resolves to under metadata `meta_id` with field
/// names `names`: inline text stands for itself; an indexed name must carry
/// the owning metadata's identifier and an index inside the list.
pub open spec fn decode_name_model(
    wf: WireField,
    meta_id: u64,
    names: Seq<Seq<char>>,
) -> Option<Seq<char>> {
    match wf.name {
        Option::None => Option::None,
        Option::Some(WireName::Str(s)) => Option::Some(s@),
        Option::Some(WireName::Index(idx)) => {
            if wf.metadata_id != Option::Some(meta_id) {
                Option::None
            } else if idx >= names.len() {
                Option::None
            } else {
                Option::Some(names[idx as int])
            }
        },
    }
}

/// What decoding a wire field yields: nothing when the name is absent or
/// invalid, the value is absent, or the value is empty text; otherwise the
/// resolved name with the normalized value, spawn-location text rewritten.
pub open spec fn decode_field_model(
    wf: WireField,
    meta_id: u64,
    names: Seq<Seq<char>>,
) -> Option<FieldModel> {
    match decode_name_model(wf, meta_id, names) {
        Option::None => Option::None,
        Option::Some(name) => match wf.value {
            Option::None => Option::None,
            Option::Some(v) => {
                let vm = wire_value_model(v);
                if is_empty_text(vm) {
                    Option::None
                } else if name == spawn_location_name() {
                    Option::Some(FieldModel { name, value: truncate_model(vm) })
                } else {
                    Option::Some(FieldModel { name, value: vm })
                }
            },
        },
    }
}

impl Field {
    /// The mathematical image of this field: its name's text and its value.
    pub open spec fn model(&self) -> FieldModel {
        FieldModel { name: self.name.text@, value: self.value.model() }
    }

    /// Converts a wire-format field into a decoded field, resolving indexed
    /// names against the owning metadata `meta`.  Invalid fields and fields
    /// with an empty string value yield nothing.
    pub fn from_proto(wf: WireField, meta: &Metadata, strings: &mut Strings) -> (r: Option<Field>)
        requires
            old(strings).wf(),
        ensures
            final(strings).wf(),
            pool_extends(old(strings)@, final(strings)@),
            old(strings).fresh_id() <= final(strings).fresh_id(),
            r is Some <==> decode_field_model(wf, meta.id, meta.names_model()) is Some,
            r matches Some(f) ==> Some(f.model()) == decode_field_model(
                wf,
                meta.id,
                meta.names_model(),
            ),
    {
        let name: InternedStr = match wf.name {
            None => {
                return None;
            },
            Some(WireName::Str(s)) => strings.intern(s),
            Some(WireName::Index(idx)) => {
                let id_matches = match wf.metadata_id {
                    Some(m) => m == meta.id,
                    None => false,
                };
                if !id_matches {
                    return None;
                }
                if idx >= meta.field_names.len() as u64 {
                    return None;
                }
                let h = meta.field_names[idx as usize].duplicate();
                strings.acquire(h.id);
                h
            },
        };
        let value = match wf.value {
            None => {
                return None;
            },
            Some(v) => FieldValue::from(v),
        };
        let value = match value.ensure_nonempty() {
            None => {
                return None;
            },
            Some(v) => v,
        };
        let spawn_location = String::from_str("spawn.location");
        let value = if name.text == spawn_location {
            value.truncate_registry_path()
        } else {
            value
        };
        Some(Field { name, value })
    }
}

impl FieldValue {
    /// Rewrites string-like text by truncating a dependency-cache path
    /// prefix, re-tagging the result as opaque text; other values pass
    /// through.
    pub fn truncate_registry_path(self) -> (r: FieldValue)
        ensures
            r.model() == truncate_model(self.model()),
    {
        match self {
            FieldValue::Str(s) => FieldValue::Debug(truncate_registry_path(s)),
            FieldValue::Debug(s) => FieldValue::Debug(truncate_registry_path(s)),
            f => f,
        }
    }

    /// Keeps this value unless it is a string-like value with empty text.
    pub fn ensure_nonempty(self) -> (r: Option<FieldValue>)
        ensures
            r is Some <==> !is_empty_text(self.model()),
            r matches Some(v) ==> v.model() == self.model(),
    {
        match self {
            FieldValue::Str(s) => {
                if s.as_str().is_empty() {
                    None
                } else {
                    Some(FieldValue::Str(s))
                }
            },
            FieldValue::Debug(s) => {
                if s.as_str().is_empty() {
                    None
                } else {
                    Some(FieldValue::Debug(s))
                }
            },
            v => Some(v),
        }
    }
}

impl From<WireValue> for FieldValue {
    /// Carries each wire value variant over to the decoded representation.
    fn from(v: WireValue) -> (r: FieldValue) {
        match v {
            WireValue::Bool(b) => FieldValue::Bool(b),
            WireValue::Str(s) => FieldValue::Str(s),
            WireValue::I64(n) => FieldValue::I64(n),
            WireValue::U64(n) => FieldValue::U64(n),
            WireValue::Debug(s) => FieldValue::Debug(s),
        }
    }
}

impl vstd::std_specs::convert::FromSpecImpl<WireValue> for FieldValue {
    open spec fn obeys_from_spec() -> bool {
        true
    }

    open spec fn from_spec(v: WireValue) -> FieldValue {
        match v {
            WireValue::Bool(b) => FieldValue::Bool(b),
            WireValue::Str(s) => FieldValue::Str(s),
            WireValue::I64(n) => FieldValue::I64(n),
            WireValue::U64(n) => FieldValue::U64(n),
            WireValue::Debug(s) => FieldValue::Debug(s),
        }
    }
}

impl Metadata {
    /// The texts of the positional field names, in order.
    pub open spec fn names_model(&self) -> Seq<Seq<char>> {
        Seq::new(self.field_names@.len(), |i: int| self.field_names@[i].text@)
    }

    /// The mathematical image of this record.
    pub open spec fn model(&self) -> MetaModel {
        MetaModel { id: self.id, target: self.target.text@, field_names: self.names_model() }
    }

    /// Builds a metadata record from its wire form, interning the target and
    /// every field name.
    pub fn from_proto(pb: WireMetadata, id: u64, strings: &mut Strings) -> (m: Metadata)
        requires
            old(strings).wf(),
        ensures
            final(strings).wf(),
            pool_extends(old(strings)@, final(strings)@),
            old(strings).fresh_id() <= final(strings).fresh_id(),
            m.id == id,
            m.target.text@ == pb.target@,
            m.names_model() =~= Seq::new(pb.field_names@.len(), |i: int| pb.field_names@[i]@),
    {
        let ghost p0 = strings@;
        let ghost f0 = strings.fresh_id();
        let mut names: Vec<InternedStr> = Vec::new();
        let n = pb.field_names.len();
        let mut i: usize = 0;
        let remaining = pb.field_names;
        proof {
            crate::intern::lemma_pool_extends_refl(strings@);
        }
        while i < n
            invariant
                strings.wf(),
                pool_extends(p0, strings@),
                f0 <= strings.fresh_id(),
                i <= n,
                remaining@.len() == n,
                names@.len() == i,
                forall|j: int| 0 <= j < i ==> names@[j].text@ == remaining@[j]@,
            decreases n - i,
        {
            let ghost p_mid = strings@;
            let s = remaining[i].clone();
            let h = strings.intern(s);
            names.push(h);
            proof {
                crate::intern::lemma_pool_extends_trans(p0, p_mid, strings@);
            }
            i += 1;
        }
        let ghost p_mid = strings@;
        let target = strings.intern(pb.target);
        proof {
            crate::intern::lemma_pool_extends_trans(p0, p_mid, strings@);
        }
        Metadata { id, target, field_names: names }
    }
}


/// The canonical decimal digit character for `d`.
pub open spec fn digit_char(d: int) -> char {
    if d == 0 { '0' }
    else if d == 1 { '1' }
    else if d == 2 { '2' }
    else if d == 3 { '3' }
    else if d == 4 { '4' }
    else if d == 5 { '5' }
    else if d == 6 { '6' }
    else if d == 7 { '7' }
    else if d == 8 { '8' }
    else { '9' }
}

/// The decimal rendering of a natural number.
pub open spec fn dec_of(n: nat) -> Seq<char>
    decreases n,
{
    if n < 10 {
        seq![digit_char(n as int)]
    } else {
        dec_of(n / 10).push(digit_char((n % 10) as int))
    }
}

/// The decimal rendering of an integer: a leading minus sign when negative.
pub open spec fn int_dec(n: int) -> Seq<char> {
    if n < 0 {
        seq!['-'] + dec_of((-n) as nat)
    } else {
        dec_of(n as nat)
    }
}

/// The textual form of a value: string-like values render as their plain
/// text, numbers in decimal, booleans as `true` or `false`.
pub open spec fn value_text(v: ValueModel) -> Seq<char> {
    match v {
        ValueModel::Bool(b) => if b { "true"@ } else { "false"@ },
        ValueModel::Str(s) => s,
        ValueModel::U64(n) => dec_of(n as nat),
        ValueModel::I64(n) => int_dec(n as int),
        ValueModel::Debug(s) => s,
    }
}

fn digit_str(d: u64) -> (s: &'static str)
    requires
        d < 10,
    ensures
        s@ == seq![digit_char(d as int)],
{
    proof {
        reveal_strlit("0");
        reveal_strlit("1");
        reveal_strlit("2");
        reveal_strlit("3");
        reveal_strlit("4");
        reveal_strlit("5");
        reveal_strlit("6");
        reveal_strlit("7");
        reveal_strlit("8");
        reveal_strlit("9");
    }
    if d == 0 { proof { assert("0"@ =~= seq![digit_char(0)]); } "0" }
    else if d == 1 { proof { assert("1"@ =~= seq![digit_char(1)]); } "1" }
    else if d == 2 { proof { assert("2"@ =~= seq![digit_char(2)]); } "2" }
    else if d == 3 { proof { assert("3"@ =~= seq![digit_char(3)]); } "3" }
    else if d == 4 { proof { assert("4"@ =~= seq![digit_char(4)]); } "4" }
    else if d == 5 { proof { assert("5"@ =~= seq![digit_char(5)]); } "5" }
    else if d == 6 { proof { assert("6"@ =~= seq![digit_char(6)]); } "6" }
    else if d == 7 { proof { assert("7"@ =~= seq![digit_char(7)]); } "7" }
    else if d == 8 { proof { assert("8"@ =~= seq![digit_char(8)]); } "8" }
    else { proof { assert("9"@ =~= seq![digit_char(9)]); } "9" }
}

/// Renders an unsigned number in decimal.
pub fn u64_to_dec(n: u64) -> (s: String)
    ensures
        s@ == dec_of(n as nat),
    decreases n,
{
    if n < 10 {
        String::from_str(digit_str(n))
    } else {
        let mut s = u64_to_dec(n / 10);
        s.append(digit_str(n % 10));
        proof {
            assert(dec_of((n / 10) as nat) + seq![digit_char((n % 10) as int)]
                =~= dec_of((n / 10) as nat).push(digit_char((n % 10) as int)));
        }
        s
    }
}

/// Renders a signed number in decimal.
pub fn i64_to_dec(n: i64) -> (s: String)
    ensures
        s@ == int_dec(n as int),
{
    if n >= 0 {
        u64_to_dec(n as u64)
    } else {
        let m: u64 = (-(n as i128)) as u64;
        let mut s = String::from_str("-");
        let digits = u64_to_dec(m);
        s.append(digits.as_str());
        proof {
            reveal_strlit("-");
            assert("-"@ =~= seq!['-']);
        }
        s
    }
}

impl FieldValue {
    /// The textual form of this value; string-like and opaque values render
    /// identically as their plain text.
    pub fn render(&self) -> (r: String)
        ensures
            r@ == value_text(self.model()),
    {
        match self {
            FieldValue::Bool(b) => {
                if *b {
                    String::from_str("true")
                } else {
                    String::from_str("false")
                }
            },
            FieldValue::Str(s) => s.clone(),
            FieldValue::U64(n) => u64_to_dec(*n),
            FieldValue::I64(n) => i64_to_dec(*n),
            FieldValue::Debug(s) => s.clone(),
        }
    }
}

/// The display rank of a field name: the task-name field sorts before
/// everything, the spawn-location field after everything.
pub open spec fn name_rank(n: Seq<char>) -> int {
    if n == task_name_name() { 0 } else if n == spawn_location_name() { 2 } else { 1 }
}

/// Lexicographic order on texts by code point, a prefix ordered before its
/// extensions.
pub open spec fn lex_le(a: Seq<char>, b: Seq<char>) -> bool
    decreases a.len(),
{
    if a.len() == 0 {
        true
    } else if b.len() == 0 {
        false
    } else if a[0] == b[0] {
        lex_le(a.skip(1), b.skip(1))
    } else {
        (a[0] as u32) < (b[0] as u32)
    }
}

/// The display order on fields: by rank, then lexicographically by name.
pub open spec fn display_le(a: FieldModel, b: FieldModel) -> bool {
    ||| name_rank(a.name) < name_rank(b.name)
    ||| (name_rank(a.name) == name_rank(b.name) && lex_le(a.name, b.name))
}

/// Whether a field list stands in display order.
pub open spec fn sorted_for_display(s: Seq<FieldModel>) -> bool {
    forall|i: int, j: int| 0 <= i < j < s.len() ==> display_le(s[i], s[j])
}

/// The images of a list of decoded fields.
pub open spec fn models(s: Seq<Field>) -> Seq<FieldModel> {
    Seq::new(s.len(), |i: int| s[i].model())
}

proof fn lemma_char_cast_distinct(a: char, b: char)
    requires
        a != b,
    ensures
        (a as u32) != (b as u32),
{
    broadcast use vstd::utf8::char_u32_cast;

    if (a as u32) == (b as u32) {
        assert(((a as u32) as char) == a);
        assert(((b as u32) as char) == b);
    }
}

proof fn lemma_lex_le_refl(a: Seq<char>)
    ensures
        lex_le(a, a),
    decreases a.len(),
{
    if a.len() > 0 {
        lemma_lex_le_refl(a.skip(1));
    }
}

proof fn lemma_lex_le_total(a: Seq<char>, b: Seq<char>)
    ensures
        lex_le(a, b) || lex_le(b, a),
    decreases a.len(),
{
    if a.len() > 0 && b.len() > 0 {
        if a[0] == b[0] {
            lemma_lex_le_total(a.skip(1), b.skip(1));
        } else {
            lemma_char_cast_distinct(a[0], b[0]);
        }
    }
}

proof fn lemma_lex_le_trans(a: Seq<char>, b: Seq<char>, c: Seq<char>)
    requires
        lex_le(a, b),
        lex_le(b, c),
    ensures
        lex_le(a, c),
    decreases a.len(),
{
    if a.len() > 0 && b.len() > 0 && c.len() > 0 {
        if a[0] == b[0] && b[0] == c[0] {
            lemma_lex_le_trans(a.skip(1), b.skip(1), c.skip(1));
        }
    }
}

proof fn lemma_lex_le_antisym(a: Seq<char>, b: Seq<char>)
    requires
        lex_le(a, b),
        lex_le(b, a),
    ensures
        a == b,
    decreases a.len(),
{
    if a.len() == 0 {
        assert(b.len() == 0);
        assert(a =~= b);
    } else {
        assert(b.len() > 0);
        assert(a[0] == b[0]);
        lemma_lex_le_antisym(a.skip(1), b.skip(1));
        assert(a =~= seq![a[0]] + a.skip(1));
        assert(b =~= seq![b[0]] + b.skip(1));
        assert(a =~= b);
    }
}

/// The display order relates every field to itself.
pub proof fn lemma_display_le_refl(a: FieldModel)
    ensures
        display_le(a, a),
{
    lemma_lex_le_refl(a.name);
}

/// The display order can compare any two fields.
pub proof fn lemma_display_le_total(a: FieldModel, b: FieldModel)
    ensures
        display_le(a, b) || display_le(b, a),
{
    lemma_lex_le_total(a.name, b.name);
}

/// The display order is transitive.
pub proof fn lemma_display_le_trans(a: FieldModel, b: FieldModel, c: FieldModel)
    requires
        display_le(a, b),
        display_le(b, c),
    ensures
        display_le(a, c),
{
    if name_rank(a.name) == name_rank(b.name) && name_rank(b.name) == name_rank(c.name) {
        lemma_lex_le_trans(a.name, b.name, c.name);
    }
}

fn lex_le_exec(a: &String, b: &String) -> (r: bool)
    ensures
        r == lex_le(a@, b@),
{
    let an = a.as_str().unicode_len();
    let bn = b.as_str().unicode_len();
    let mut i: usize = 0;
    proof {
        assert(a@.skip(0) =~= a@);
        assert(b@.skip(0) =~= b@);
    }
    loop
        invariant
            i <= an,
            i <= bn,
            an == a@.len(),
            bn == b@.len(),
            lex_le(a@, b@) == lex_le(a@.skip(i as int), b@.skip(i as int)),
        decreases an - i,
    {
        if i >= an {
            return true;
        }
        if i >= bn {
            return false;
        }
        let ca = a.as_str().get_char(i);
        let cb = b.as_str().get_char(i);
        if ca == cb {
            proof {
                let sa = a@.skip(i as int);
                let sb = b@.skip(i as int);
                assert(sa[0] == a@[i as int]);
                assert(sb[0] == b@[i as int]);
                assert(sa.skip(1) =~= a@.skip((i + 1) as int));
                assert(sb.skip(1) =~= b@.skip((i + 1) as int));
            }
            i += 1;
        } else {
            proof {
                let sa = a@.skip(i as int);
                let sb = b@.skip(i as int);
                assert(sa[0] == a@[i as int]);
                assert(sb[0] == b@[i as int]);
            }
            return (ca as u32) < (cb as u32);
        }
    }
}

fn name_rank_exec(n: &String) -> (r: u64)
    ensures
        r as int == name_rank(n@),
{
    let tn = String::from_str("task.name");
    let sl = String::from_str("spawn.location");
    if *n == tn {
        0
    } else if *n == sl {
        2
    } else {
        1
    }
}

fn display_le_exec(a: &Field, b: &Field) -> (r: bool)
    ensures
        r == display_le(a.model(), b.model()),
{
    let ra = name_rank_exec(&a.name.text);
    let rb = name_rank_exec(&b.name.text);
    if ra < rb {
        true
    } else if rb < ra {
        false
    } else {
        lex_le_exec(&a.name.text, &b.name.text)
    }
}

proof fn lemma_to_multiset_insert_at<A>(s: Seq<A>, i: int, a: A)
    requires
        0 <= i <= s.len(),
    ensures
        s.insert(i, a).to_multiset() =~= s.to_multiset().insert(a),
{
    broadcast use vstd::seq_lib::group_to_multiset_ensures;
    broadcast use vstd::multiset::group_multiset_axioms;

    let t = s.insert(i, a);
    assert(t.remove(i) =~= s);
    assert(t[i] == a);
    assert(t.remove(i).to_multiset() =~= t.to_multiset().remove(t[i]));
    assert(t.to_multiset().count(a) > 0) by {
        assert(t.contains(a));
    }
    assert forall|x: A| t.to_multiset().count(x) == #[trigger] s.to_multiset().insert(a).count(x) by {
        assert(s.to_multiset().count(x) == t.to_multiset().remove(a).count(x));
    }
}

fn sort_for_display(fields: &mut Vec<Field>)
    ensures
        final(fields)@.len() == old(fields)@.len(),
        sorted_for_display(models(final(fields)@)),
        models(final(fields)@).to_multiset() == models(old(fields)@).to_multiset(),
{
    let n = fields.len();
    let mut i: usize = 1;
    if n <= 1 {
        return;
    }
    while i < n
        invariant
            1 <= i <= n,
            n == fields@.len(),
            sorted_for_display(models(fields@).subrange(0, i as int)),
            models(fields@).to_multiset() == models(old(fields)@).to_multiset(),
        decreases n - i,
    {
        let mut j: usize = i;
        let mut placed = false;
        while j > 0 && !placed
            invariant
                0 <= j <= i < n,
                n == fields@.len(),
                models(fields@).to_multiset() == models(old(fields)@).to_multiset(),
                sorted_for_display(models(fields@).subrange(0, j as int)),
                sorted_for_display(models(fields@).subrange(j as int, (i + 1) as int)),
                forall|a: int, b: int|
                    0 <= a < j && j < b <= i ==> display_le(
                        models(fields@)[a],
                        models(fields@)[b],
                    ),
                placed && j > 0 ==> display_le(
                    models(fields@)[(j - 1) as int],
                    models(fields@)[j as int],
                ),
            decreases j + (if placed { 0int } else { 1int }),
        {
            if display_le_exec(&fields[j - 1], &fields[j]) {
                placed = true;
            } else {
            proof {
                lemma_display_le_total(models(fields@)[j - 1], models(fields@)[j as int]);
            }
            let ghost v0 = fields@;
            let x = fields.remove(j);
            let ghost v1 = fields@;
            fields.insert(j - 1, x);
            proof {
                let v2 = fields@;
                assert(models(v1) =~= models(v0).remove(j as int));
                assert(models(v2) =~= models(v1).insert((j - 1) as int, v0[j as int].model()));
                broadcast use vstd::seq_lib::group_to_multiset_ensures;
                assert(models(v1).to_multiset() =~= models(v0).to_multiset().remove(
                    models(v0)[j as int],
                ));
                lemma_to_multiset_insert_at(models(v1), (j - 1) as int, v0[j as int].model());
                assert(models(v0).to_multiset().count(models(v0)[j as int]) > 0) by {
                    assert(models(v0).contains(models(v0)[j as int]));
                }
                assert(models(v2).to_multiset() =~= models(v0).to_multiset());
                assert forall|a: int, b: int|
                    0 <= a < j - 1 && j - 1 < b <= i implies display_le(
                    models(v2)[a],
                    models(v2)[b],
                ) by {
                    if b == j {
                        assert(models(v2)[b] == models(v0)[(j - 1) as int]);
                        assert(models(v2)[a] == models(v0)[a]);
                        let pre = models(v0).subrange(0, j as int);
                        assert(pre[a] == models(v0)[a]);
                        assert(pre[(j - 1) as int] == models(v0)[(j - 1) as int]);
                    } else {
                        assert(models(v2)[a] == models(v0)[a]);
                        assert(models(v2)[b] == models(v0)[b]);
                    }
                }
                assert(sorted_for_display(models(v2).subrange(0, (j - 1) as int))) by {
                    let sub0 = models(v0).subrange(0, j as int);
                    let sub2 = models(v2).subrange(0, (j - 1) as int);
                    assert forall|a: int, b: int| 0 <= a < b < sub2.len() implies display_le(
                        sub2[a],
                        sub2[b],
                    ) by {
                        assert(sub2[a] == models(v0)[a] && sub0[a] == models(v0)[a]);
                        assert(sub2[b] == models(v0)[b] && sub0[b] == models(v0)[b]);
                    }
                }
                assert(sorted_for_display(models(v2).subrange((j - 1) as int, (i + 1) as int)))
                    by {
                    let m0 = models(v0);
                    let m2 = models(v2);
                    let sub = m2.subrange((j - 1) as int, (i + 1) as int);
                    let old_sub = m0.subrange(j as int, (i + 1) as int);
                    assert forall|a: int, b: int| 0 <= a < b < sub.len() implies display_le(
                        sub[a],
                        sub[b],
                    ) by {
                        if a == 0 {
                            assert(sub[0] == m0[j as int]);
                            if b == 1 {
                                assert(sub[1] == m0[(j - 1) as int]);
                            } else {
                                assert(sub[b] == m0[j - 1 + b]);
                                assert(old_sub[0] == m0[j as int]);
                                assert(old_sub[b - 1] == m0[j - 1 + b]);
                            }
                        } else if a == 1 {
                            assert(sub[1] == m0[(j - 1) as int]);
                            assert(sub[b] == m0[j - 1 + b]);
                        } else {
                            assert(sub[a] == m0[j - 1 + a]);
                            assert(sub[b] == m0[j - 1 + b]);
                            assert(old_sub[a - 1] == m0[j - 1 + a]);
                            assert(old_sub[b - 1] == m0[j - 1 + b]);
                        }
                    }
                }
            }
            j -= 1;
            }
        }
        proof {
            let m = models(fields@);
            assert(j == 0 || placed);
            assert forall|a: int, b: int| 0 <= a < b <= i implies display_le(m[a], m[b]) by {
                let pre = m.subrange(0, j as int);
                let post = m.subrange(j as int, (i + 1) as int);
                if a < j && b < j {
                    assert(pre[a] == m[a] && pre[b] == m[b]);
                } else if a >= j && b >= j {
                    assert(post[a - j] == m[a] && post[b - j] == m[b]);
                } else if b == j {
                    assert(pre[a] == m[a]);
                    assert(display_le(m[(j - 1) as int], m[j as int]));
                    if a == j - 1 {
                    } else {
                        assert(pre[(j - 1) as int] == m[(j - 1) as int]);
                        assert(display_le(m[a], m[(j - 1) as int]));
                        lemma_display_le_trans(m[a], m[(j - 1) as int], m[j as int]);
                    }
                } else {
                    assert(pre[a] == m[a]);
                    assert(post[b - j] == m[b] && post[0] == m[j as int]);
                    if a == j - 1 {
                        assert(display_le(m[(j - 1) as int], m[j as int]));
                        if b == j {
                        } else {
                            assert(display_le(m[j as int], m[b]));
                            lemma_display_le_trans(m[a], m[j as int], m[b]);
                        }
                    } else {
                        assert(pre[(j - 1) as int] == m[(j - 1) as int]);
                        assert(display_le(m[a], m[(j - 1) as int]));
                        assert(display_le(m[(j - 1) as int], m[j as int]));
                        assert(display_le(m[j as int], m[b]));
                        lemma_display_le_trans(m[a], m[(j - 1) as int], m[j as int]);
                        lemma_display_le_trans(m[a], m[j as int], m[b]);
                    }
                }
            }
            assert(sorted_for_display(m.subrange(0, (i + 1) as int))) by {
                let sub = m.subrange(0, (i + 1) as int);
                assert forall|a: int, b: int| 0 <= a < b < sub.len() implies display_le(
                    sub[a],
                    sub[b],
                ) by {
                    assert(sub[a] == m[a] && sub[b] == m[b]);
                }
            }
        }
        i += 1;
    }
    proof {
        assert(models(fields@).subrange(0, n as int) =~= models(fields@));
    }
}

/// The display row a field renders to.
pub open spec fn row_text(f: FieldModel) -> Seq<char> {
    f.name + "="@ + value_text(f.value) + " "@
}

impl Field {
    /// Sorts the fields into display order and renders one `name=value `
    /// row per field: the task-name field first, the spawn-location field
    /// last, all others in lexicographic name order.
    pub fn make_formatted(fields: &mut Vec<Field>) -> (rows: Vec<String>)
        ensures
            final(fields)@.len() == old(fields)@.len(),
            sorted_for_display(models(final(fields)@)),
            models(final(fields)@).to_multiset() == models(old(fields)@).to_multiset(),
            rows@.len() == final(fields)@.len(),
            forall|i: int|
                0 <= i < rows@.len() ==> rows@[i]@ == row_text(models(final(fields)@)[i]),
    {
        sort_for_display(fields);
        let mut rows: Vec<String> = Vec::new();
        let n = fields.len();
        let mut i: usize = 0;
        while i < n
            invariant
                0 <= i <= n,
                n == fields@.len(),
                rows@.len() == i,
                forall|k: int| 0 <= k < i ==> rows@[k]@ == row_text(models(fields@)[k]),
            decreases n - i,
        {
            let f = &fields[i];
            let mut s = String::from_str(f.name.text.as_str());
            s.append("=");
            let v = f.value.render();
            s.append(v.as_str());
            s.append(" ");
            proof {
                assert(s@ =~= row_text(models(fields@)[i as int]));
            }
            rows.push(s);
            i += 1;
        }
        rows
    }
}



/// A wire field whose indexed name carries a metadata identifier other than
/// the owning metadata's, or an index past the end of the name list, decodes
/// to nothing — it is dropped, never a failure.
pub proof fn lemma_invalid_indexed_name_dropped(
    wf: WireField,
    meta_id: u64,
    names: Seq<Seq<char>>,
    idx: u64,
)
    requires
        wf.name == Some(WireName::Index(idx)),
        wf.metadata_id != Some(meta_id) || idx >= names.len(),
    ensures
        decode_field_model(wf, meta_id, names) is None,
{
}

/// A string-like wire value with empty text is always dropped, whatever its
/// name resolved to.
pub proof fn lemma_empty_text_dropped(
    wf: WireField,
    meta_id: u64,
    names: Seq<Seq<char>>,
    v: WireValue,
)
    requires
        wf.value == Some(v),
        is_empty_text(wire_value_model(v)),
    ensures
        decode_field_model(wf, meta_id, names) is None,
{
}

/// A non-empty value decodes unchanged, unless the field is the
/// spawn-location field, whose text has its dependency-cache prefix replaced
/// by the alias token and is re-tagged as opaque text.
pub proof fn lemma_nonempty_value_preserved(
    wf: WireField,
    meta_id: u64,
    names: Seq<Seq<char>>,
    v: WireValue,
)
    requires
        wf.value == Some(v),
        !is_empty_text(wire_value_model(v)),
    ensures
        decode_field_model(wf, meta_id, names) matches Some(f) ==> {
            &&& f.name != spawn_location_name() ==> f.value == wire_value_model(v)
            &&& f.name == spawn_location_name() ==> f.value == truncate_model(wire_value_model(v))
        },
{
}

/// In a display-sorted field list the task-name field never follows another
/// field, the spawn-location field never precedes one, and ordinary fields
/// stand in lexicographic name order.
pub proof fn lemma_display_order(s: Seq<FieldModel>, i: int, j: int)
    requires
        sorted_for_display(s),
        0 <= i < j < s.len(),
    ensures
        s[j].name == task_name_name() ==> s[i].name == task_name_name(),
        s[i].name == spawn_location_name() ==> s[j].name == spawn_location_name(),
        name_rank(s[i].name) == 1 && name_rank(s[j].name) == 1 ==> lex_le(s[i].name, s[j].name),
{
    reveal_strlit("task.name");
    reveal_strlit("spawn.location");
    assert(task_name_name().len() == 9);
    assert(spawn_location_name().len() == 14);
    assert(task_name_name() != spawn_location_name());
    assert(display_le(s[i], s[j]));
}

/// Pairwise distinct field names.
pub open spec fn distinct_names(s: Seq<FieldModel>) -> bool {
    forall|i: int, j: int| 0 <= i < j < s.len() ==> s[i].name != s[j].name
}

/// Two display-sorted lists holding the same fields, with pairwise distinct
/// names, are the same list: the displayed order does not depend on the
/// order in which the fields arrived.
pub proof fn lemma_display_order_canonical(x: Seq<FieldModel>, y: Seq<FieldModel>)
    requires
        sorted_for_display(x),
        sorted_for_display(y),
        x.to_multiset() == y.to_multiset(),
        distinct_names(x),
    ensures
        x == y,
    decreases x.len(),
{
    broadcast use vstd::seq_lib::group_to_multiset_ensures;
    broadcast use vstd::multiset::group_multiset_axioms;

    if x.len() == 0 {
        assert(x.to_multiset().len() == 0);
        assert(y.len() == 0);
        assert(x =~= y);
    } else {
        assert(x.to_multiset().len() == x.len());
        assert(y.to_multiset().len() == y.len());
        assert(y.len() == x.len());
        assert(y.contains(x[0])) by {
            assert(x.contains(x[0]));
            assert(x.to_multiset().count(x[0]) > 0);
        }
        assert(x.contains(y[0])) by {
            assert(y.contains(y[0]));
            assert(y.to_multiset().count(y[0]) > 0);
        }
        let i = choose|i: int| 0 <= i < x.len() && x[i] == y[0];
        let j = choose|j: int| 0 <= j < y.len() && y[j] == x[0];
        if i == 0 {
            lemma_display_le_refl(x[0]);
            assert(display_le(x[0], y[0]));
        } else {
            assert(display_le(x[0], x[i]));
        }
        if j == 0 {
            lemma_display_le_refl(y[0]);
            assert(display_le(y[0], x[0]));
        } else {
            assert(display_le(y[0], y[j]));
        }
        assert(display_le(x[0], y[0]) && display_le(y[0], x[0]));
        if name_rank(x[0].name) == name_rank(y[0].name) {
            lemma_lex_le_antisym(x[0].name, y[0].name);
        }
        assert(x[0].name == y[0].name);
        assert(i == 0) by {
            if i != 0 {
                assert(x[0].name != x[i].name);
            }
        }
        assert(x[0] == y[0]);
        let xt = x.drop_first();
        let yt = y.drop_first();
        assert(xt =~= x.remove(0));
        assert(yt =~= y.remove(0));
        assert(xt.to_multiset() =~= x.to_multiset().remove(x[0]));
        assert(yt.to_multiset() =~= y.to_multiset().remove(y[0]));
        assert(sorted_for_display(xt)) by {
            assert forall|a: int, b: int| 0 <= a < b < xt.len() implies display_le(
                xt[a],
                xt[b],
            ) by {
                assert(xt[a] == x[a + 1] && xt[b] == x[b + 1]);
            }
        }
        assert(sorted_for_display(yt)) by {
            assert forall|a: int, b: int| 0 <= a < b < yt.len() implies display_le(
                yt[a],
                yt[b],
            ) by {
                assert(yt[a] == y[a + 1] && yt[b] == y[b + 1]);
            }
        }
        assert(distinct_names(xt)) by {
            assert forall|a: int, b: int| 0 <= a < b < xt.len() implies xt[a].name
                != xt[b].name by {
                assert(xt[a] == x[a + 1] && xt[b] == x[b + 1]);
            }
        }
        lemma_display_order_canonical(xt, yt);
        assert(x =~= seq![x[0]] + xt);
        assert(y =~= seq![y[0]] + yt);
        assert(x =~= y);
    }
}

/// The display rows a field list renders to, in order.
pub open spec fn rows_of(fm: Seq<FieldModel>) -> Seq<Seq<char>> {
    Seq::new(fm.len(), |i: int| row_text(fm[i]))
}

/// Whether `rows` displays exactly the fields `fields`: the rows render
/// some display-sorted arrangement of those fields.
pub open spec fn rows_match(rows: Seq<Seq<char>>, fields: Seq<FieldModel>) -> bool {
    exists|fm: Seq<FieldModel>|
        sorted_for_display(fm) && fm.to_multiset() == fields.to_multiset() && rows == rows_of(fm)
}

/// With pairwise distinct names the display rows are a function of the
/// field set alone: any two display-sorted arrangements of the same fields
/// render the same rows, whatever order the fields arrived in.
pub proof fn lemma_rows_canonical(x: Seq<FieldModel>, y: Seq<FieldModel>)
    requires
        sorted_for_display(x),
        sorted_for_display(y),
        x.to_multiset() == y.to_multiset(),
        distinct_names(x),
    ensures
        rows_of(x) == rows_of(y),
{
    lemma_display_order_canonical(x, y);
}

/// A source-code location: a file path, a module path, and a position, any
/// of which the producer may omit.
pub struct Location {
    pub file: Option<String>,
    pub module: Option<String>,
    pub line: Option<u32>,
    pub column: Option<u32>,
}

/// The text a location renders to: the module path when present (shorter),
/// else the cache-truncated file path, followed by `:line` and `:column`
/// where known, and a trailing space.  A location with neither module path
/// nor file renders as the unknown-location marker.
pub open spec fn location_text(l: Location) -> Seq<char> {
    if l.module is Some || l.file is Some {
        let base = if l.module is Some {
            l.module.unwrap()@
        } else {
            truncated_path(l.file.unwrap()@)
        };
        let positioned = if l.line is Some {
            let with_line = base + ":"@ + dec_of(l.line.unwrap() as nat);
            if l.column is Some {
                with_line + ":"@ + dec_of(l.column.unwrap() as nat)
            } else {
                with_line
            }
        } else {
            base
        };
        positioned + " "@
    } else {
        "<unknown location>"@ + " "@
    }
}

/// The text an optional location renders to: an absent location renders as
/// the unknown-location marker without a trailing space.
pub open spec fn opt_location_text(l: Option<Location>) -> Seq<char> {
    match l {
        Option::Some(l) => location_text(l),
        Option::None => "<unknown location>"@,
    }
}

/// Renders a source-code location for display, truncating a
/// dependency-cache prefix in the file path.
pub fn format_location(loc: Option<Location>) -> (r: String)
    ensures
        r@ == opt_location_text(loc),
{
    match loc {
        None => String::from_str("<unknown location>"),
        Some(l) => {
            let ghost lg = l;
            let line_opt = l.line;
            let column_opt = l.column;
            let mut base = match (l.module, l.file) {
                (Some(m), _) => m,
                (None, Some(f)) => truncate_registry_path(f),
                (None, None) => {
                    let mut u = String::from_str("<unknown location>");
                    u.append(" ");
                    return u;
                },
            };
            if let Some(line) = line_opt {
                base.append(":");
                let d = u64_to_dec(line as u64);
                base.append(d.as_str());
                if let Some(column) = column_opt {
                    base.append(":");
                    let c = u64_to_dec(column as u64);
                    base.append(c.as_str());
                }
            }
            base.append(" ");
            base
        },
    }
}



impl FieldValue {
    /// Makes an independent copy of this value.
    pub fn duplicate(&self) -> (r: FieldValue)
        ensures
            r.model() == self.model(),
    {
        match self {
            FieldValue::Bool(b) => FieldValue::Bool(*b),
            FieldValue::Str(s) => FieldValue::Str(s.clone()),
            FieldValue::U64(n) => FieldValue::U64(*n),
            FieldValue::I64(n) => FieldValue::I64(*n),
            FieldValue::Debug(s) => FieldValue::Debug(s.clone()),
        }
    }
}

impl Field {
    /// Makes an independent copy of this field.  The caller must pair it
    /// with `Strings::acquire` if the copy is to outlive this one.
    pub fn duplicate(&self) -> (r: Field)
        ensures
            r.model() == self.model(),
            r.name.id == self.name.id,
    {
        Field { name: self.name.duplicate(), value: self.value.duplicate() }
    }
}

/// Makes an independent copy of a field list, preserving its images.
pub fn duplicate_fields(fields: &Vec<Field>) -> (r: Vec<Field>)
    ensures
        models(r@) =~= models(fields@),
{
    let n = fields.len();
    let mut r: Vec<Field> = Vec::new();
    let mut i: usize = 0;
    while i < n
        invariant
            0 <= i <= n,
            n == fields@.len(),
            r@.len() == i,
            forall|k: int| 0 <= k < i ==> r@[k].model() == fields@[k].model(),
        decreases n - i,
    {
        r.push(fields[i].duplicate());
        i += 1;
    }
    r
}


} // verus!
