//! Analysis of a message struct against its topic pattern: which fields are
//! topic parameters, which is the payload, and whether the struct may be
//! built from a topic match at all. The struct is described by its field
//! names and the shapes of their types.
use vstd::prelude::*;

use crate::text::append_str;
use crate::topic_pattern_item::{ItemView, item_is_wildcard, item_name, opt_view};
use crate::topic_pattern_path::{TopicPatternPath, items_view, wildcards_of};

verus! {

/// Represents a topic parameter with its name and position in the wildcard sequence
#[derive(Debug, Clone, PartialEq, Eq)]
pub struct TopicParam {
    /// The parameter name (e.g., "sensor_id" from "{sensor_id}")
    pub name: String,
    /// Index among ALL wildcards in the pattern (used for extraction)
    pub wildcard_index: usize,
}

/// The views of topic parameters: name and wildcard index.
pub open spec fn params_view(v: Seq<TopicParam>) -> Seq<(Seq<char>, usize)> {
    Seq::new(v.len(), |i: int| (v[i].name@, v[i].wildcard_index))
}

/// The named wildcards among `ws` (the wildcards of a pattern, in order),
/// each with its index among all of them.
pub open spec fn named_wildcards(ws: Seq<ItemView>) -> Seq<(Seq<char>, usize)>
    decreases ws.len(),
{
    if ws.len() == 0 {
        Seq::empty()
    } else {
        let prev = named_wildcards(ws.drop_last());
        match item_name(ws.last()) {
            Some(n) => prev.push((n, (ws.len() - 1) as usize)),
            None => prev,
        }
    }
}

/// The topic parameters of a pattern: its named wildcards with their index
/// among all wildcards.
pub open spec fn available_params(items: Seq<ItemView>) -> Seq<(Seq<char>, usize)> {
    named_wildcards(wildcards_of(items))
}

/// Extract all available topic parameters with their wildcard indices
///
/// Scans the topic pattern for named wildcards (e.g., `{sensor_id}`, `{room:#}`)
/// and assigns each one an index based on its position among ALL wildcards.
pub fn extract_available_params(topic_pattern: &TopicPatternPath) -> (r: Vec<TopicParam>)
    ensures
        params_view(r@) == available_params(topic_pattern.spec_items()),
{
    let segments = topic_pattern.segments();
    let ghost items = items_view(segments@);
    let mut r: Vec<TopicParam> = Vec::new();
    let mut wildcard_index: usize = 0;
    let mut k: usize = 0;
    while k < segments.len()
        invariant
            0 <= k <= segments@.len(),
            items == items_view(segments@),
            wildcard_index == wildcards_of(items.take(k as int)).len(),
            wildcard_index <= k,
            params_view(r@) == named_wildcards(wildcards_of(items.take(k as int))),
        decreases segments@.len() - k,
    {
        let item = &segments[k];
        proof {
            assert(items.take(k + 1).drop_last() =~= items.take(k as int));
            assert(items.take(k + 1).last() == items[k as int]);
        }
        if item.is_wildcard() {
            let ghost ws = wildcards_of(items.take(k + 1));
            proof {
                assert(ws.drop_last() == wildcards_of(items.take(k as int)));
                assert(ws.last() == items[k as int]);
            }
            match item.param_name() {
                Some(name) => {
                    let ghost before = r@;
                    r.push(TopicParam { name, wildcard_index });
                    proof {
                        assert(params_view(r@) =~= params_view(before).push((opt_view(Some(name))->Some_0, wildcard_index)));
                    }
                },
                None => {},
            }
            wildcard_index = wildcard_index + 1;
        }
        k = k + 1;
    }
    proof {
        assert(items.take(segments@.len() as int) =~= items);
    }
    r
}

/// The shape of a generic argument's type, as far as the analysis reads it.
#[derive(Debug, Clone, PartialEq, Eq)]
pub enum ArgShape {
    /// A path type, with the identifier of its last segment if it has
    /// segments.
    Path { last_ident: Option<String> },
    /// Any other type, or an argument that is not a type.
    Other,
}

/// The shape of a field's type, as far as the analysis reads it.
#[derive(Debug, Clone, PartialEq, Eq)]
pub enum TypeShape {
    /// A path type: the identifier of its last segment, if it has segments,
    /// and, when that segment has angle-bracketed arguments, the shape of
    /// the first one.
    Path { last_ident: Option<String>, first_arg: Option<ArgShape> },
    /// Any other type.
    Other,
}

/// The type is `Arc<TopicMatch>`: a path ending in `Arc` whose first
/// argument is a path type ending in `TopicMatch`.
pub open spec fn is_arc_topic_match(t: TypeShape) -> bool {
    match t {
        TypeShape::Path { last_ident: Some(id), first_arg: Some(ArgShape::Path { last_ident: Some(id2) }) } =>
            id@ == "Arc"@ && id2@ == "TopicMatch"@,
        _ => false,
    }
}

/// Check if a type syntactically matches `Arc<TopicMatch>`
pub fn is_arc_topic_match_type(ty: &TypeShape) -> (r: bool)
    ensures
        r == is_arc_topic_match(*ty),
{
    let arc = "Arc".to_owned();
    let topic_match = "TopicMatch".to_owned();
    match ty {
        TypeShape::Path { last_ident: Some(id), first_arg: Some(ArgShape::Path { last_ident: Some(id2) }) } => {
            id.eq(&arc) && id2.eq(&topic_match)
        },
        _ => false,
    }
}

/// A field of the struct: its name and the shape of its type.
#[derive(Debug, Clone, PartialEq, Eq)]
pub struct FieldShape {
    /// The field's name.
    pub name: String,
    /// The shape of the field's type.
    pub ty: TypeShape,
}

/// The struct being analysed.
#[derive(Debug, Clone, PartialEq, Eq)]
pub enum StructShape {
    /// A struct with named fields, in order.
    NamedFields(Vec<FieldShape>),
    /// A tuple struct, a unit struct, an enum or a union.
    Other,
}

/// Abstract value of an [`AnalysisError`].
pub enum AnalysisErrorView {
    NotNamedStruct,
    InvalidTopicFieldType,
    UnknownFields(Seq<Seq<char>>, Seq<Seq<char>>),
}

/// Why a struct cannot be built from its topic pattern.
#[derive(Debug, Clone, PartialEq, Eq)]
pub enum AnalysisError {
    /// Not a struct with named fields.
    NotNamedStruct,
    /// The `topic` field is not of type `Arc<TopicMatch>`.
    InvalidTopicFieldType,
    /// Fields that are neither `payload`, `topic` nor a topic parameter,
    /// with the names of the available parameters.
    UnknownFields { unknown: Vec<String>, available: Vec<String> },
}

/// The views of a vector of strings.
pub open spec fn names_view(v: Seq<String>) -> Seq<Seq<char>> {
    Seq::new(v.len(), |i: int| v[i]@)
}

impl View for AnalysisError {
    type V = AnalysisErrorView;

    open spec fn view(&self) -> AnalysisErrorView {
        match self {
            AnalysisError::NotNamedStruct => AnalysisErrorView::NotNamedStruct,
            AnalysisError::InvalidTopicFieldType => AnalysisErrorView::InvalidTopicFieldType,
            AnalysisError::UnknownFields { unknown, available } => AnalysisErrorView::UnknownFields(
                names_view(unknown@),
                names_view(available@),
            ),
        }
    }
}

/// The texts joined with `, `.
pub open spec fn comma_joined(v: Seq<Seq<char>>) -> Seq<char>
    decreases v.len(),
{
    if v.len() == 0 {
        Seq::empty()
    } else if v.len() == 1 {
        v[0]
    } else {
        comma_joined(v.drop_last()) + ", "@ + v.last()
    }
}

/// Appends the texts joined with `, ` to `out`.
fn append_joined(out: &mut String, v: &Vec<String>)
    ensures
        final(out)@ == old(out)@ + comma_joined(names_view(v@)),
{
    let ghost start = out@;
    let mut i: usize = 0;
    proof {
        reveal_strlit(", ");
    }
    while i < v.len()
        invariant
            0 <= i <= v@.len(),
            out@ == start + comma_joined(names_view(v@).take(i as int)),
        decreases v@.len() - i,
    {
        proof {
            let t = names_view(v@).take(i + 1);
            assert(t.drop_last() =~= names_view(v@).take(i as int));
            assert(t.last() == v@[i as int]@);
        }
        if i > 0 {
            append_str(out, ", ");
        }
        append_str(out, v[i].as_str());
        proof {
            let t = names_view(v@).take(i + 1);
            if i == 0 {
                assert(t.len() == 1);
                assert(comma_joined(names_view(v@).take(0)) =~= Seq::<char>::empty());
            }
            assert(out@ =~= start + comma_joined(t));
        }
        i = i + 1;
    }
    proof {
        assert(names_view(v@).take(v@.len() as int) =~= names_view(v@));
    }
}

impl AnalysisError {
    /// The message shown for the error.
    pub fn message(&self) -> (r: String)
        ensures
            r@ == match self@ {
                AnalysisErrorView::NotNamedStruct =>
                    "mqtt_topic_subscriber can only be applied to structs with named fields, not tuple structs or unit structs"@,
                AnalysisErrorView::InvalidTopicFieldType =>
                    "Field 'topic' must be of type Arc<TopicMatch>. Import it as: use std::sync::Arc; use mqtt_typed_client::topic::topic_match::TopicMatch;"@,
                AnalysisErrorView::UnknownFields(unknown, available) => "Unknown fields: ["@ + comma_joined(
                    unknown,
                ) + "]. Allowed fields: 'payload', 'topic', and topic parameters: ["@ + comma_joined(
                    available,
                ) + "]"@,
            },
    {
        match self {
            AnalysisError::NotNamedStruct => "mqtt_topic_subscriber can only be applied to structs with named fields, not tuple structs or unit structs".to_owned(),
            AnalysisError::InvalidTopicFieldType => "Field 'topic' must be of type Arc<TopicMatch>. Import it as: use std::sync::Arc; use mqtt_typed_client::topic::topic_match::TopicMatch;".to_owned(),
            AnalysisError::UnknownFields { unknown, available } => {
                let mut r = String::new();
                append_str(&mut r, "Unknown fields: [");
                append_joined(&mut r, unknown);
                append_str(&mut r, "]. Allowed fields: 'payload', 'topic', and topic parameters: [");
                append_joined(&mut r, available);
                append_str(&mut r, "]");
                r
            },
        }
    }
}

/// The first available parameter named `n`.
pub open spec fn param_named(params: Seq<(Seq<char>, usize)>, n: Seq<char>) -> Option<(Seq<char>, usize)>
    decreases params.len(),
{
    if params.len() == 0 {
        None
    } else if params[0].0 == n {
        Some(params[0])
    } else {
        param_named(params.drop_first(), n)
    }
}

/// The field name is `payload` or `topic`, which have their own meaning.
pub open spec fn is_special_name(n: Seq<char>) -> bool {
    n == "payload"@ || n == "topic"@
}

/// Some field named `topic` has a type other than `Arc<TopicMatch>`.
pub open spec fn bad_topic_field(fields: Seq<FieldShape>) -> bool {
    exists|i: int|
        0 <= i < fields.len() && (#[trigger] fields[i]).name@ == "topic"@ && !is_arc_topic_match(
            fields[i].ty,
        )
}

/// Some field is named `topic`.
pub open spec fn has_topic_named(fields: Seq<FieldShape>) -> bool {
    exists|i: int| 0 <= i < fields.len() && (#[trigger] fields[i]).name@ == "topic"@
}

/// The names of the fields that are neither `payload`, `topic` nor a topic
/// parameter, in field order.
pub open spec fn unknown_fields(fields: Seq<FieldShape>, params: Seq<(Seq<char>, usize)>) -> Seq<Seq<char>>
    decreases fields.len(),
{
    if fields.len() == 0 {
        Seq::empty()
    } else {
        let prev = unknown_fields(fields.drop_last(), params);
        let n = fields.last().name@;
        if is_special_name(n) || param_named(params, n) is Some {
            prev
        } else {
            prev.push(n)
        }
    }
}

/// The topic parameters that fields stand for, in field order.
pub open spec fn matched_params(fields: Seq<FieldShape>, params: Seq<(Seq<char>, usize)>) -> Seq<(Seq<char>, usize)>
    decreases fields.len(),
{
    if fields.len() == 0 {
        Seq::empty()
    } else {
        let prev = matched_params(fields.drop_last(), params);
        let n = fields.last().name@;
        if is_special_name(n) {
            prev
        } else {
            match param_named(params, n) {
                Some(p) => prev.push(p),
                None => prev,
            }
        }
    }
}

/// The index of the last field named `payload`, if any.
pub open spec fn payload_index(fields: Seq<FieldShape>) -> Option<usize>
    decreases fields.len(),
{
    if fields.len() == 0 {
        None
    } else if fields.last().name@ == "payload"@ {
        Some((fields.len() - 1) as usize)
    } else {
        payload_index(fields.drop_last())
    }
}

/// The names of topic parameters.
pub open spec fn param_names_of(params: Seq<(Seq<char>, usize)>) -> Seq<Seq<char>> {
    Seq::new(params.len(), |i: int| params[i].0)
}

/// Contains all validated information about the struct and its relationship to the topic pattern
#[derive(Debug, Clone, PartialEq, Eq)]
pub struct StructAnalysisContext {
    /// The index of the payload field, if present
    pub payload_field: Option<usize>,
    /// Whether the struct has a topic field of type Arc<TopicMatch>
    pub has_topic_field: bool,
    /// Topic parameters that have corresponding struct fields
    pub topic_params: Vec<TopicParam>,
}

/// The index of the first parameter named `n`.
fn find_param(params: &Vec<TopicParam>, n: &String) -> (r: Option<usize>)
    ensures
        match r {
            Some(j) => j < params@.len() && param_named(params_view(params@), n@) == Some(
                params_view(params@)[j as int],
            ),
            None => param_named(params_view(params@), n@) is None,
        },
{
    let ghost pv = params_view(params@);
    let mut j: usize = 0;
    assert(pv.skip(0) =~= pv);
    while j < params.len()
        invariant
            0 <= j <= params@.len(),
            pv == params_view(params@),
            param_named(pv, n@) == param_named(pv.skip(j as int), n@),
        decreases params@.len() - j,
    {
        proof {
            assert(pv.skip(j as int)[0] == pv[j as int]);
            assert(pv.skip(j as int).drop_first() =~= pv.skip(j + 1));
        }
        if params[j].name.eq(n) {
            return Some(j);
        }
        j = j + 1;
    }
    None
}

impl StructAnalysisContext {
    /// Analyze the struct and topic pattern, returning a context for code
    /// generation.
    ///
    /// The struct must have named fields; the only fields allowed are
    /// `payload`, `topic` (of type `Arc<TopicMatch>`) and the named
    /// wildcards of the pattern.
    pub fn analyze(input_struct: &StructShape, topic_pattern: &TopicPatternPath) -> (r: Result<Self, AnalysisError>)
        ensures
            match *input_struct {
                StructShape::Other => r matches Err(e) && e@ is NotNamedStruct,
                StructShape::NamedFields(fields) => {
                    let fs = fields@;
                    let ps = available_params(topic_pattern.spec_items());
                    if bad_topic_field(fs) {
                        r matches Err(e) && e@ is InvalidTopicFieldType
                    } else if unknown_fields(fs, ps).len() > 0 {
                        r matches Err(e) && e@ == AnalysisErrorView::UnknownFields(
                            unknown_fields(fs, ps),
                            param_names_of(ps),
                        )
                    } else {
                        r matches Ok(c) && c.payload_field == payload_index(fs) && c.has_topic_field
                            == has_topic_named(fs) && params_view(c.topic_params@) == matched_params(fs, ps)
                    }
                },
            },
    {
        let fields = match input_struct {
            StructShape::NamedFields(fields) => fields,
            StructShape::Other => {
                return Err(AnalysisError::NotNamedStruct);
            },
        };
        let available = extract_available_params(topic_pattern);
        let ghost fs = fields@;
        let ghost ps = params_view(available@);
        let payload = "payload".to_owned();
        let topic = "topic".to_owned();
        proof {
            reveal_strlit("payload");
            reveal_strlit("topic");
        }
        let mut payload_field: Option<usize> = None;
        let mut has_topic_field = false;
        let mut topic_params: Vec<TopicParam> = Vec::new();
        let mut unknown: Vec<String> = Vec::new();
        let mut k: usize = 0;
        while k < fields.len()
            invariant
                0 <= k <= fs.len(),
                fs == fields@,
                *input_struct == StructShape::NamedFields(*fields),
                ps == params_view(available@),
                ps == available_params(topic_pattern.spec_items()),
                payload@ == "payload"@,
                topic@ == "topic"@,
                !bad_topic_field(fs.take(k as int)),
                payload_field == payload_index(fs.take(k as int)),
                has_topic_field == has_topic_named(fs.take(k as int)),
                params_view(topic_params@) == matched_params(fs.take(k as int), ps),
                names_view(unknown@) == unknown_fields(fs.take(k as int), ps),
            decreases fs.len() - k,
        {
            let field = &fields[k];
            let ghost t = fs.take(k + 1);
            proof {
                assert(t.drop_last() =~= fs.take(k as int));
                assert(t.last() == fs[k as int]);
            }
            if field.name.eq(&payload) {
                payload_field = Some(k);
            } else if field.name.eq(&topic) {
                if !is_arc_topic_match_type(&field.ty) {
                    proof {
                        assert(t[k as int] == fs[k as int]);
                        assert(bad_topic_field(fs)) by {
                            assert(fs[k as int].name@ == "topic"@);
                        }
                    }
                    return Err(AnalysisError::InvalidTopicFieldType);
                }
                has_topic_field = true;
            } else {
                match find_param(&available, &field.name) {
                    Some(j) => {
                        let ghost before = topic_params@;
                        topic_params.push(
                            TopicParam {
                                name: available[j].name.clone(),
                                wildcard_index: available[j].wildcard_index,
                            },
                        );
                        proof {
                            assert(params_view(topic_params@) =~= params_view(before).push(ps[j as int]));
                        }
                    },
                    None => {
                        let ghost before = unknown@;
                        unknown.push(field.name.clone());
                        proof {
                            assert(names_view(unknown@) =~= names_view(before).push(fs[k as int].name@));
                        }
                    },
                }
            }
            proof {
                reveal_strlit("payload");
                reveal_strlit("topic");
                assert(t[k as int] == fs[k as int]);
                assert(fs[k as int] == *field);
                assert("payload"@[0] != "topic"@[0]);
                assert(!bad_topic_field(t)) by {
                    if bad_topic_field(t) {
                        let i = choose|i: int| 0 <= i < t.len() && (#[trigger] t[i]).name@ == "topic"@ && !is_arc_topic_match(t[i].ty);
                        if i < k {
                            assert(t[i] == fs.take(k as int)[i]);
                        }
                    }
                }
                assert(has_topic_field == has_topic_named(t)) by {
                    if has_topic_named(t) {
                        let i = choose|i: int| 0 <= i < t.len() && (#[trigger] t[i]).name@ == "topic"@;
                        if i < k {
                            assert(t[i] == fs.take(k as int)[i]);
                        }
                    }
                    if has_topic_named(fs.take(k as int)) {
                        let i = choose|i: int| 0 <= i < k && (#[trigger] fs.take(k as int)[i]).name@ == "topic"@;
                        assert(t[i] == fs.take(k as int)[i]);
                    }
                }
            }
            k = k + 1;
        }
        proof {
            assert(fs.take(fs.len() as int) =~= fs);
        }
        if unknown.len() > 0 {
            let mut names: Vec<String> = Vec::new();
            let mut j: usize = 0;
            while j < available.len()
                invariant
                    0 <= j <= available@.len(),
                    ps == params_view(available@),
                    names@.len() == j,
                    names_view(names@) == param_names_of(ps).take(j as int),
                decreases available@.len() - j,
            {
                let ghost before = names@;
                let nm = available[j].name.clone();
                names.push(nm);
                proof {
                    assert(param_names_of(ps)[j as int] == available@[j as int].name@);
                    assert(names@[j as int]@ == available@[j as int].name@);
                    assert forall|i: int| 0 <= i < j implies names@[i] == before[i] by {}
                    assert(names_view(names@) =~= param_names_of(ps).take(j + 1));
                }
                j = j + 1;
            }
            proof {
                assert(param_names_of(ps).take(available@.len() as int) =~= param_names_of(ps));
            }
            return Err(AnalysisError::UnknownFields { unknown, available: names });
        }
        Ok(StructAnalysisContext { payload_field, has_topic_field, topic_params })
    }

    /// Builds a context from its parts.
    pub fn from_components(
        payload_field: Option<usize>,
        has_topic_field: bool,
        topic_params: Vec<TopicParam>,
    ) -> (r: Self)
        ensures
            r.payload_field == payload_field,
            r.has_topic_field == has_topic_field,
            r.topic_params == topic_params,
    {
        StructAnalysisContext { payload_field, has_topic_field, topic_params }
    }

    /// Get the number of topic parameters that need to be extracted
    pub fn param_count(&self) -> (r: usize)
        ensures
            r == self.topic_params@.len(),
    {
        self.topic_params.len()
    }

    /// Check if the struct has any fields that need special handling
    pub fn has_special_fields(&self) -> (r: bool)
        ensures
            r == (self.payload_field is Some || self.has_topic_field),
    {
        self.payload_field.is_some() || self.has_topic_field
    }

    /// Get all topic parameter names
    pub fn param_names(&self) -> (r: Vec<&str>)
        ensures
            r@.len() == self.topic_params@.len(),
            forall|i: int| 0 <= i < r@.len() ==> (#[trigger] r@[i])@ == self.topic_params@[i].name@,
    {
        let mut r: Vec<&str> = Vec::new();
        let mut i: usize = 0;
        while i < self.topic_params.len()
            invariant
                0 <= i <= self.topic_params@.len(),
                r@.len() == i,
                forall|k: int| 0 <= k < i ==> (#[trigger] r@[k])@ == self.topic_params@[k].name@,
            decreases self.topic_params@.len() - i,
        {
            r.push(self.topic_params[i].name.as_str());
            i = i + 1;
        }
        r
    }
}

} // verus!
