//! Variables: taken out of replies and put into the requests that follow.

use vstd::hash_map::StringHashMap;
use vstd::prelude::*;
use vstd::slice::slice_subrange;

use crate::json::{json_parse, json_text, member, parse, Json, JsonView};
use crate::text::{
    chars_of, find_char, find_chars, find_first, find_from_is_first, find_place,
    find_place_is_first, is_white, next_piece, parse_unsigned, push_chars, read_unsigned, split,
    stands_at, starts_with, string_of, trim, trim_end, trimmed,
};

verus! {

broadcast use vstd::string::group_string_axioms;

// ----------------------------------------------------------------------
// Paths into a reply
// ----------------------------------------------------------------------

/// One step of a path into a JSON value.
#[derive(Debug)]
pub enum Segment {
    Key(String),
    Index(usize),
}

/// What a `Segment` holds.
pub enum SegmentView {
    Key(Seq<char>),
    Index(usize),
}

impl View for Segment {
    type V = SegmentView;

    open spec fn view(&self) -> SegmentView {
        match self {
            Segment::Key(k) => SegmentView::Key(k@),
            Segment::Index(i) => SegmentView::Index(*i),
        }
    }
}

/// What a path holds.
pub open spec fn segments_view(segments: Seq<Segment>) -> Seq<SegmentView> {
    Seq::new(segments.len(), |i: int| segments[i]@)
}

/// What follows a prefix, or all where there is none.
pub open spec fn without_prefix(s: Seq<char>, prefix: Seq<char>) -> Seq<char> {
    if prefix.is_prefix_of(s) {
        s.skip(prefix.len() as int)
    } else {
        s
    }
}

/// One piece of a written path: a number is a place in an array, anything
/// else a key.
pub open spec fn segment(piece: Seq<char>) -> SegmentView {
    match parse_unsigned(piece, usize::MAX as nat) {
        Some(n) => SegmentView::Index(n as usize),
        None => SegmentView::Key(piece),
    }
}

/// The pieces that are not empty.
pub open spec fn path_segments(pieces: Seq<Seq<char>>) -> Seq<SegmentView>
    decreases pieces.len(),
{
    if pieces.len() == 0 {
        seq![]
    } else if pieces[0].len() == 0 {
        path_segments(pieces.drop_first())
    } else {
        seq![segment(pieces[0])] + path_segments(pieces.drop_first())
    }
}

/// The path that a text writes: pieces between dots, after an optional `$.`
/// or `$`.
pub open spec fn extract_path(path: Seq<char>) -> Seq<SegmentView> {
    path_segments(split(without_prefix(without_prefix(trim(path), "$."@), "$"@), '.'))
}

/// The path that a text writes.
pub fn parse_extract_path(path: &str) -> (segments: Vec<Segment>)
    ensures
        segments_view(segments@) == extract_path(path@),
{
    let all: Vec<char> = chars_of(path);
    let mut rest: &[char] = trimmed(&all);
    proof {
        reveal_strlit("$.");
        reveal_strlit("$");
    }
    if starts_with(rest, "$.") {
        let tail: &[char] = slice_subrange(rest, 2, rest.len());
        assert(tail@ =~= rest@.skip(2));
        rest = tail;
    }
    if starts_with(rest, "$") {
        let tail: &[char] = slice_subrange(rest, 1, rest.len());
        assert(tail@ =~= rest@.skip(1));
        rest = tail;
    }
    let ghost whole = path_segments(split(rest@, '.'));
    assert(rest@.skip(0) =~= rest@);
    let mut segments: Vec<Segment> = Vec::new();
    assert(segments_view(segments@) + whole =~= whole);
    let mut from: usize = 0;
    loop
        invariant_except_break
            segments_view(segments@) + path_segments(split(rest@.skip(from as int), '.')) == whole,
        invariant
            from <= rest@.len(),
        ensures
            segments_view(segments@) == whole,
        decreases rest@.len() - from,
    {
        let (end, next): (usize, Option<usize>) = next_piece(rest, '.', from);
        let piece: &[char] = slice_subrange(rest, from, end);
        let ghost pieces = split(rest@.skip(from as int), '.');
        let ghost before = segments_view(segments@);
        assert(pieces[0] == piece@);
        if piece.len() > 0 {
            match read_unsigned(piece, usize::MAX as u64) {
                Some(n) => segments.push(Segment::Index(n as usize)),
                None => segments.push(Segment::Key(string_of(piece))),
            }
            assert(segments_view(segments@) =~= before.push(segment(piece@)));
        }
        match next {
            Some(start) => {
                assert(pieces.drop_first() =~= split(rest@.skip(start as int), '.'));
                assert(segments_view(segments@) + path_segments(pieces.drop_first()) =~= before
                    + path_segments(pieces));
                from = start;
            },
            None => {
                assert(pieces.drop_first() =~= Seq::<Seq<char>>::empty());
                assert(path_segments(pieces.drop_first()) =~= seq![]);
                assert(segments_view(segments@) =~= before + path_segments(pieces));
                break;
            },
        }
    }
    segments
}

/// The value at the end of a path.
pub open spec fn value_at(value: JsonView, segments: Seq<SegmentView>) -> Option<JsonView>
    decreases segments.len(),
{
    if segments.len() == 0 {
        Some(value)
    } else {
        let inner = match segments[0] {
            SegmentView::Key(k) => value.get_key(k),
            SegmentView::Index(i) => value.get_index(i as int),
        };
        match inner {
            Some(v) => value_at(v, segments.drop_first()),
            None => None,
        }
    }
}

/// A value as a variable holds it: a text as it is, nothing for null, and
/// anything else as JSON.
pub open spec fn variable_text(value: JsonView) -> Option<Seq<char>> {
    match value {
        JsonView::Text(t) => Some(t),
        JsonView::Null => None,
        JsonView::Bool(b) => Some(
            if b {
                "true"@
            } else {
                "false"@
            },
        ),
        other => Some(json_text(other)),
    }
}

/// The text at the end of a path.
pub open spec fn walked(value: JsonView, segments: Seq<SegmentView>) -> Option<Seq<char>> {
    match value_at(value, segments) {
        Some(v) => variable_text(v),
        None => None,
    }
}

/// The text at the end of a path.
pub fn walk(value: &Json, segments: &[Segment]) -> (text: Option<String>)
    requires
        value@.wf(),
    ensures
        match text {
            Some(t) => walked(value@, segments_view(segments@)) == Some(t@),
            None => walked(value@, segments_view(segments@)) is None,
        },
{
    let ghost path = segments_view(segments@);
    let mut cur: &Json = value;
    assert(path.skip(0) =~= path);
    for i in 0..segments.len()
        invariant
            cur@.wf(),
            path == segments_view(segments@),
            value_at(cur@, path.skip(i as int)) == value_at(value@, path),
    {
        assert(path.skip(i as int)[0] == segments@[i as int]@);
        assert(path.skip(i as int).drop_first() =~= path.skip(i as int + 1));
        let inner: Option<&Json> = match &segments[i] {
            Segment::Key(k) => cur.get_key(k.as_str()),
            Segment::Index(at) => cur.get_index(*at),
        };
        match inner {
            Some(v) => {
                cur = v;
            },
            None => {
                return None;
            },
        }
    }
    assert(path.skip(segments@.len() as int).len() == 0);
    match cur {
        Json::Text(s) => Some(s.clone()),
        Json::Null => None,
        Json::Bool(b) => Some(
            if *b {
                "true".to_owned()
            } else {
                "false".to_owned()
            },
        ),
        _ => Some(cur.to_text()),
    }
}

// ----------------------------------------------------------------------
// Variables
// ----------------------------------------------------------------------

/// The variables of a virtual user.
pub struct Vars {
    values: StringHashMap<String>,
}

impl View for Vars {
    type V = Map<Seq<char>, Seq<char>>;

    closed spec fn view(&self) -> Map<Seq<char>, Seq<char>> {
        self.values@.map_values(|v: String| v@)
    }
}

impl Vars {
    /// No variables.
    pub fn new() -> (vars: Vars)
        ensures
            vars@ == Map::<Seq<char>, Seq<char>>::empty(),
    {
        let vars: Vars = Vars { values: StringHashMap::new() };
        assert(vars@ =~= Map::<Seq<char>, Seq<char>>::empty());
        vars
    }

    /// The value of a variable.
    pub fn get(&self, name: &str) -> (value: Option<&String>)
        ensures
            match value {
                Some(v) => self@.contains_key(name@) && self@[name@] == v@,
                None => !self@.contains_key(name@),
            },
    {
        self.values.get(name)
    }

    /// Give a variable a value.
    pub fn insert(&mut self, name: String, value: String)
        ensures
            final(self)@ == old(self)@.insert(name@, value@),
    {
        let ghost (key, text) = (name@, value@);
        self.values.insert(name, value);
        assert(self@ =~= old(self)@.insert(key, text));
    }
}

/// The value of a variable; nothing where it has none.
pub open spec fn value_or_nothing(
    vars: Map<Seq<char>, Seq<char>>,
    name: Seq<char>,
) -> Seq<char> {
    if vars.contains_key(name) {
        vars[name]
    } else {
        seq![]
    }
}

/// A text with each `${name}` replaced by the variable's value. A `${` that
/// nothing closes stays as it is.
pub open spec fn substituted(
    template: Seq<char>,
    vars: Map<Seq<char>, Seq<char>>,
) -> Seq<char>
    decreases template.len(),
{
    match find_place(template, seq!['$', '{'], 0) {
        None => template,
        Some(at) => {
            let after = template.skip(at + 2);
            let end = find_first(after, '}');
            if !(0 <= at && at + 2 <= template.len() && 0 <= end) {
                template
            } else if end < after.len() {
                template.take(at) + value_or_nothing(vars, after.take(end)) + substituted(
                    after.skip(end + 1),
                    vars,
                )
            } else {
                template.take(at) + seq!['$', '{'] + substituted(after, vars)
            }
        },
    }
}

/// The text with the variables' values in it.
pub fn substitute(template: &str, vars: &Vars) -> (text: String)
    ensures
        text@ == substituted(template@, vars@),
{
    let chars: Vec<char> = chars_of(template);
    let opening: [char; 2] = ['$', '{'];
    let mut out: String = String::new();
    let mut rest: &[char] = chars.as_slice();
    assert(opening@ =~= seq!['$', '{']);
    assert(out@ + substituted(rest@, vars@) =~= substituted(template@, vars@));
    loop
        invariant
            opening@ == seq!['$', '{'],
            out@ + substituted(rest@, vars@) == substituted(template@, vars@),
        ensures
            find_place(rest@, seq!['$', '{'], 0) is None,
        decreases rest@.len(),
    {
        let at: usize = match find_chars(rest, opening.as_slice()) {
            Some(at) => at,
            None => {
                break;
            },
        };
        let ghost before = out@;
        let ghost whole = rest@;
        let total: usize = rest.len();
        let after: &[char] = slice_subrange(rest, at + 2, total);
        let head: &[char] = slice_subrange(rest, 0, at);
        assert(after@ =~= whole.skip(at + 2));
        assert(head@ =~= whole.take(at as int));
        push_chars(&mut out, head);
        let end: usize = find_char(after, '}', 0);
        if end < after.len() {
            let name: String = string_of(slice_subrange(after, 0, end));
            assert(name@ =~= after@.take(end as int));
            if let Some(value) = vars.get(name.as_str()) {
                push_chars(&mut out, &chars_of(value.as_str()));
            }
            let tail: &[char] = slice_subrange(after, end + 1, after.len());
            assert(tail@ =~= after@.skip(end + 1));
            rest = tail;
        } else {
            push_chars(&mut out, opening.as_slice());
            rest = after;
        }
        assert(out@ + substituted(rest@, vars@) =~= before + substituted(whole, vars@));
    }
    push_chars(&mut out, rest);
    out
}

/// What the extractions of a step hold.
pub open spec fn extracts_view(extracts: Seq<(String, Vec<Segment>)>) -> Seq<
    (Seq<char>, Seq<SegmentView>),
> {
    Seq::new(extracts.len(), |i: int| (extracts[i].0@, segments_view(extracts[i].1@)))
}

/// The variables after those extractions from a JSON value that lead
/// anywhere, in their order.
pub open spec fn extracted(
    vars: Map<Seq<char>, Seq<char>>,
    value: JsonView,
    extracts: Seq<(Seq<char>, Seq<SegmentView>)>,
) -> Map<Seq<char>, Seq<char>>
    decreases extracts.len(),
{
    if extracts.len() == 0 {
        vars
    } else {
        let before = extracted(vars, value, extracts.drop_last());
        match walked(value, extracts.last().1) {
            Some(text) => before.insert(extracts.last().0, text),
            None => before,
        }
    }
}

/// The variables after the extractions from a reply's body: as before where
/// it is no JSON.
pub open spec fn extracted_from(
    vars: Map<Seq<char>, Seq<char>>,
    body: Seq<u8>,
    extracts: Seq<(Seq<char>, Seq<SegmentView>)>,
) -> Map<Seq<char>, Seq<char>> {
    match json_parse(body) {
        Some(value) => extracted(vars, value, extracts),
        None => vars,
    }
}

/// Set the variables that a parsed body has values for.
pub fn extract_from_json(value: &Json, extracts: &Vec<(String, Vec<Segment>)>, vars: &mut Vars)
    requires
        value@.wf(),
    ensures
        final(vars)@ == extracted(old(vars)@, value@, extracts_view(extracts@)),
{
    let ghost all = extracts_view(extracts@);
    assert(all.take(0) =~= seq![]);
    for i in 0..extracts.len()
        invariant
            value@.wf(),
            all == extracts_view(extracts@),
            vars@ == extracted(old(vars)@, value@, all.take(i as int)),
    {
        assert(all.take(i as int + 1).drop_last() =~= all.take(i as int));
        assert(all.take(i as int + 1).last() == all[i as int]);
        if let Some(text) = walk(value, extracts[i].1.as_slice()) {
            vars.insert(extracts[i].0.clone(), text);
        }
    }
    assert(all.take(extracts@.len() as int) =~= all);
}

/// Set the variables that a reply's body has values for.
pub fn extract_vars(body: &[u8], extracts: &Vec<(String, Vec<Segment>)>, vars: &mut Vars)
    ensures
        final(vars)@ == extracted_from(old(vars)@, body@, extracts_view(extracts@)),
{
    if let Some(value) = parse(body) {
        extract_from_json(&value, extracts, vars);
    }
}

// ----------------------------------------------------------------------
// Laws
// ----------------------------------------------------------------------

/// A text without variables stays as it is.
pub proof fn plain_text_stays(template: Seq<char>, vars: Map<Seq<char>, Seq<char>>)
    requires
        !template.contains('$'),
    ensures
        substituted(template, vars) == template,
{
    find_place_is_first(template, seq!['$', '{'], 0);
    if let Some(at) = find_place(template, seq!['$', '{'], 0) {
        assert(template.subrange(at, at + 2)[0] == '$');
        assert(template[at] == '$');
    }
}

proof fn opening_is_found(prefix: Seq<char>, rest: Seq<char>, from: int)
    requires
        0 <= from <= prefix.len(),
        forall|i: int| 0 <= i < prefix.len() ==> prefix[i] != '$',
    ensures
        find_place(prefix + seq!['$', '{'] + rest, seq!['$', '{'], from) == Some(
            prefix.len() as int,
        ),
    decreases prefix.len() - from,
{
    let opening = seq!['$', '{'];
    let template = prefix + opening + rest;
    if from == prefix.len() {
        assert(template.subrange(from, from + 2) =~= opening);
    } else {
        assert(template.subrange(from, from + 2)[0] == prefix[from]);
        assert(opening[0] == '$');
        opening_is_found(prefix, rest, from + 1);
    }
}

proof fn closing_is_found(name: Seq<char>, rest: Seq<char>)
    requires
        !name.contains('}'),
    ensures
        find_first(name + seq!['}'] + rest, '}') == name.len(),
{
    let after = name + seq!['}'] + rest;
    find_from_is_first(after, '}', 0);
    let end = find_first(after, '}');
    assert(after[name.len() as int] == '}');
    if end < name.len() {
        assert(name[end] == '}');
    }
}

/// `${name}` gives way to the value of the variable, whatever surrounds it,
/// and to nothing where it has no value.
pub proof fn variable_is_replaced(
    prefix: Seq<char>,
    name: Seq<char>,
    rest: Seq<char>,
    vars: Map<Seq<char>, Seq<char>>,
)
    requires
        !prefix.contains('$'),
        !name.contains('}'),
    ensures
        substituted(prefix + seq!['$', '{'] + (name + seq!['}'] + rest), vars) == prefix
            + value_or_nothing(vars, name) + substituted(rest, vars),
{
    let after = name + seq!['}'] + rest;
    let template = prefix + seq!['$', '{'] + after;
    let n = prefix.len() as int;
    opening_is_found(prefix, after, 0);
    closing_is_found(name, rest);
    assert(template.skip(n + 2) =~= after);
    assert(template.take(n) =~= prefix);
    assert(after.take(name.len() as int) =~= name);
    assert(after.skip(name.len() as int + 1) =~= rest);
}

/// Whether each `${` in a text is closed.
pub open spec fn is_closed(template: Seq<char>) -> bool
    decreases template.len(),
{
    match find_place(template, seq!['$', '{'], 0) {
        None => true,
        Some(at) => {
            let after = template.skip(at + 2);
            let end = find_first(after, '}');
            &&& 0 <= at && at + 2 <= template.len()
            &&& 0 <= end < after.len()
            &&& is_closed(after.skip(end + 1))
        },
    }
}

/// Whether a `${` stands across the border of two texts.
pub open spec fn opens_between(a: Seq<char>, b: Seq<char>) -> bool {
    a.len() > 0 && a.last() == '$' && b.len() > 0 && b[0] == '{'
}

proof fn place_after_prefix(a: Seq<char>, b: Seq<char>, k: int)
    requires
        0 <= k <= b.len(),
    ensures
        find_place(a + b, seq!['$', '{'], a.len() + k) == match find_place(
            b,
            seq!['$', '{'],
            k,
        ) {
            Some(at) => Some(a.len() + at),
            None => None,
        },
    decreases b.len() - k,
{
    let n = a.len() as int;
    if k + 2 <= b.len() {
        assert((a + b).subrange(n + k, n + k + 2) =~= b.subrange(k, k + 2));
        place_after_prefix(a, b, k + 1);
    }
}

proof fn place_past_prefix(a: Seq<char>, b: Seq<char>, from: int)
    requires
        0 <= from <= a.len(),
        !opens_between(a, b),
        find_place(a, seq!['$', '{'], 0) is None,
    ensures
        find_place(a + b, seq!['$', '{'], from) == match find_place(b, seq!['$', '{'], 0) {
            Some(at) => Some(a.len() + at),
            None => None,
        },
    decreases a.len() - from,
{
    let opening = seq!['$', '{'];
    if from == a.len() {
        place_after_prefix(a, b, 0);
    } else {
        find_place_is_first(a, opening, 0);
        assert(!stands_at(a + b, opening, from)) by {
            if stands_at(a + b, opening, from) {
                assert((a + b).subrange(from, from + 2)[0] == a[from]);
                assert((a + b).subrange(from, from + 2)[1] == (a + b)[from + 1]);
                assert(opening[0] == '$' && opening[1] == '{');
                assert(from < a.len() - 1);
                assert((a + b).subrange(from, from + 2) =~= a.subrange(from, from + 2));
                assert(stands_at(a, opening, from));
            }
        }
        place_past_prefix(a, b, from + 1);
        if from + 2 > (a + b).len() {
            find_place_is_first(b, opening, 0);
        }
    }
}

/// The first `${` of a text stays the first whatever follows the text.
proof fn place_stays(a: Seq<char>, b: Seq<char>, at: int)
    requires
        find_place(a, seq!['$', '{'], 0) == Some(at),
    ensures
        find_place(a + b, seq!['$', '{'], 0) == Some(at),
        0 <= at,
        at + 2 <= a.len(),
{
    let opening = seq!['$', '{'];
    find_place_is_first(a, opening, 0);
    find_place_is_first(a + b, opening, 0);
    assert forall|i: int| 0 <= i <= at implies stands_at(a + b, opening, i) == stands_at(
        a,
        opening,
        i,
    ) by {
        assert((a + b).subrange(i, i + 2) =~= a.subrange(i, i + 2));
    }
    assert(stands_at(a + b, opening, at));
    if let Some(first) = find_place(a + b, opening, 0) {
        if first < at {
            assert(stands_at(a, opening, first));
        }
    }
}

/// A text in which nothing is closed stays as it is.
pub proof fn unclosed_text_stays(template: Seq<char>, vars: Map<Seq<char>, Seq<char>>)
    requires
        !template.contains('}'),
    ensures
        substituted(template, vars) == template,
    decreases template.len(),
{
    find_place_is_first(template, seq!['$', '{'], 0);
    if let Some(at) = find_place(template, seq!['$', '{'], 0) {
        unclosed_rest_stays(template, at, vars);
    }
}

/// Where nothing is closed after the first `${`, a text stays as it is.
proof fn unclosed_rest_stays(template: Seq<char>, at: int, vars: Map<Seq<char>, Seq<char>>)
    requires
        find_place(template, seq!['$', '{'], 0) == Some(at),
        stands_at(template, seq!['$', '{'], at),
        !template.skip(at + 2).contains('}'),
    ensures
        substituted(template, vars) == template,
    decreases template.len(),
{
    let after = template.skip(at + 2);
    find_from_is_first(after, '}', 0);
    if find_first(after, '}') < after.len() {
        assert(after.contains(after[find_first(after, '}')]));
    }
    find_place_is_first(after, seq!['$', '{'], 0);
    if let Some(next) = find_place(after, seq!['$', '{'], 0) {
        let later = after.skip(next + 2);
        if later.contains('}') {
            let i = choose|i: int| 0 <= i < later.len() && later[i] == '}';
            assert(after[next + 2 + i] == '}');
        }
        unclosed_rest_stays(after, next, vars);
    }
    assert(template.subrange(at, at + 2) == seq!['$', '{']);
    assert(template =~= template.take(at) + template.subrange(at, at + 2) + after);
}

/// The case of `templates_join` in which the second text closes nothing.
proof fn unclosed_text_joins(a: Seq<char>, b: Seq<char>, vars: Map<Seq<char>, Seq<char>>)
    requires
        !b.contains('}'),
    ensures
        substituted(a + b, vars) == substituted(a, vars) + substituted(b, vars),
    decreases a.len(),
{
    let opening = seq!['$', '{'];
    let n = a.len() as int;
    unclosed_text_stays(b, vars);
    find_place_is_first(a, opening, 0);
    find_place_is_first(a + b, opening, 0);
    match find_place(a, opening, 0) {
        None => {
            if let Some(at) = find_place(a + b, opening, 0) {
                if at + 2 <= n {
                    assert((a + b).subrange(at, at + 2) =~= a.subrange(at, at + 2));
                    assert(stands_at(a, opening, at));
                }
                let after = (a + b).skip(at + 2);
                if after.contains('}') {
                    let i = choose|i: int| 0 <= i < after.len() && after[i] == '}';
                    assert(b[at + 2 + i - n] == '}');
                }
                unclosed_rest_stays(a + b, at, vars);
            }
        },
        Some(at) => {
            place_stays(a, b, at);
            let after = a.skip(at + 2);
            let end = find_first(after, '}');
            assert((a + b).skip(at + 2) =~= after + b);
            assert((a + b).take(at) =~= a.take(at));
            find_from_is_first(after, '}', 0);
            find_from_is_first(after + b, '}', 0);
            let end2 = find_first(after + b, '}');
            if end < after.len() {
                closing_stays(after, b);
                assert((after + b).take(end) =~= after.take(end));
                assert((after + b).skip(end + 1) =~= after.skip(end + 1) + b);
                unclosed_text_joins(after.skip(end + 1), b, vars);
            } else {
                if end2 < (after + b).len() {
                    if end2 < after.len() {
                        assert(after[end2] == (after + b)[end2]);
                    } else {
                        assert(b[end2 - after.len()] == '}');
                    }
                }
                unclosed_text_joins(after, b, vars);
            }
            assert(substituted(a + b, vars) =~= substituted(a, vars) + substituted(b, vars));
        },
    }
}

/// The first `}` of a text stays the first whatever follows the text.
proof fn closing_stays(after: Seq<char>, b: Seq<char>)
    requires
        find_first(after, '}') < after.len(),
    ensures
        0 <= find_first(after, '}'),
        find_first(after + b, '}') == find_first(after, '}'),
{
    let end = find_first(after, '}');
    find_from_is_first(after, '}', 0);
    find_from_is_first(after + b, '}', 0);
    assert((after + b)[end] == '}');
    let end2 = find_first(after + b, '}');
    if end2 < end {
        assert(after[end2] == (after + b)[end2]);
    }
}

/// Two templates one after the other give their texts one after the other:
/// wherever the first one closes what it opens and no `${` stands across the
/// border, and wherever the second one closes nothing.
pub proof fn templates_join(a: Seq<char>, b: Seq<char>, vars: Map<Seq<char>, Seq<char>>)
    requires
        is_closed(a) && !opens_between(a, b) || !b.contains('}'),
    ensures
        substituted(a + b, vars) == substituted(a, vars) + substituted(b, vars),
    decreases a.len(),
{
    let opening = seq!['$', '{'];
    let n = a.len() as int;
    find_place_is_first(b, opening, 0);
    if !b.contains('}') {
        unclosed_text_joins(a, b, vars);
    } else {
        match find_place(a, opening, 0) {
            None => {
                place_past_prefix(a, b, 0);
                if let Some(at) = find_place(b, opening, 0) {
                    assert((a + b).skip(n + at + 2) =~= b.skip(at + 2));
                    assert((a + b).take(n + at) =~= a + b.take(at));
                    find_from_is_first(b.skip(at + 2), '}', 0);
                }
                assert(substituted(a + b, vars) =~= a + substituted(b, vars));
            },
            Some(at) => {
                place_stays(a, b, at);
                let after = a.skip(at + 2);
                let end = find_first(after, '}');
                assert((a + b).skip(at + 2) =~= after + b);
                closing_stays(after, b);
                assert((after + b).take(end) =~= after.take(end));
                assert((after + b).skip(end + 1) =~= after.skip(end + 1) + b);
                assert((a + b).take(at) =~= a.take(at));
                let rest = after.skip(end + 1);
                assert(rest.len() > 0 ==> rest.last() == a.last());
                templates_join(rest, b, vars);
                assert(substituted(a + b, vars) =~= substituted(a, vars) + substituted(b, vars));
            },
        }
    }
}

proof fn trim_end_keeps_the_front(front: Seq<char>, s: Seq<char>)
    requires
        front.len() > 0,
        !is_white(front.last()),
    ensures
        trim_end(front + s) == front + trim_end(s),
        trim_end(s).is_prefix_of(s),
    decreases s.len(),
{
    if s.len() == 0 {
        assert(front + s =~= front);
    } else {
        assert((front + s).last() == s.last());
        assert((front + s).drop_last() =~= front + s.drop_last());
        trim_end_keeps_the_front(front, s.drop_last());
    }
}

/// A path means the same with `$.` before it and without, and with `$` where
/// what follows is not a dot and a second `$`.
pub proof fn path_root_is_optional(path: Seq<char>)
    requires
        path.len() == 0 || path[0] != '$' && !is_white(path[0]),
    ensures
        extract_path("$."@ + path) == extract_path(path),
        !(path.len() > 1 && path[0] == '.' && path[1] == '$') ==> extract_path("$"@ + path)
            == extract_path(path),
{
    reveal_strlit("$.");
    reveal_strlit("$");
    let inner = trim_end(path);
    trim_end_keeps_the_front("$."@, path);
    trim_end_keeps_the_front("$"@, path);
    assert(trim(path) == inner);
    assert(trim("$."@ + path) == "$."@ + inner);
    assert(trim("$"@ + path) == "$"@ + inner);
    assert(inner.len() > 0 ==> inner[0] == path[0]);
    assert(without_prefix(without_prefix(inner, "$."@), "$"@) == inner);
    assert(("$."@ + inner).skip(2) =~= inner);
    assert("$."@.is_prefix_of("$."@ + inner));
    assert(without_prefix(without_prefix("$."@ + inner, "$."@), "$"@) == inner);
    assert(("$"@ + inner).skip(1) =~= inner);
    assert("$"@.is_prefix_of("$"@ + inner));
    if inner.len() > 0 && inner[0] == '.' {
        assert("$."@.is_prefix_of("$"@ + inner));
        let rest = inner.skip(1);
        assert(("$"@ + inner).skip(2) =~= rest);
        find_from_is_first(inner, '.', 0);
        assert(find_first(inner, '.') == 0);
        assert(split(inner, '.') == seq![inner.take(0)] + split(rest, '.'));
        assert(split(inner, '.').drop_first() =~= split(rest, '.'));
        if !(path.len() > 1 && path[1] == '$') {
            assert(rest.len() > 0 ==> rest[0] == path[1]);
            assert(without_prefix(without_prefix("$"@ + inner, "$."@), "$"@) == rest);
            assert(split(inner, '.')[0].len() == 0);
        }
    } else {
        if "$."@.is_prefix_of("$"@ + inner) {
            assert(("$"@ + inner)[1] == "$."@[1]);
        }
        assert(without_prefix(without_prefix("$"@ + inner, "$."@), "$"@) == inner);
    }
}

/// `${name}` gives way to the value of the variable where it has one and to
/// nothing where it has none, whatever surrounds it.
pub proof fn variable_gives_its_value(
    prefix: Seq<char>,
    name: Seq<char>,
    rest: Seq<char>,
    vars: Map<Seq<char>, Seq<char>>,
)
    requires
        forall|i: int| 0 <= i < prefix.len() ==> prefix[i] != '$',
        forall|i: int| 0 <= i < name.len() ==> name[i] != '}',
    ensures
        ({
            let text = substituted(prefix + seq!['$', '{'] + name + seq!['}'] + rest, vars);
            if vars.contains_key(name) {
                text == prefix + vars[name] + substituted(rest, vars)
            } else {
                text == prefix + substituted(rest, vars)
            }
        }),
{
    variable_is_replaced(prefix, name, rest, vars);
    assert(prefix + seq!['$', '{'] + name + seq!['}'] + rest =~= prefix + seq!['$', '{'] + (name
        + seq!['}'] + rest));
    assert(prefix + Seq::<char>::empty() =~= prefix);
}

/// A path leads from an object to the member under its key and from an array
/// to the item at its place, and from there on by the rest of the path. It
/// leads nowhere where there is no such member or item, or where a key meets
/// an array or a place meets an object. An empty path leads to the value.
pub proof fn paths_lead_inward(
    value: JsonView,
    key: Seq<char>,
    place: usize,
    rest: Seq<SegmentView>,
)
    ensures
        value_at(value, seq![]) == Some(value),
        ({
            let found = value_at(value, seq![SegmentView::Key(key)] + rest);
            match value {
                JsonView::Object(members) => match member(members, key) {
                    Some(v) => found == value_at(v, rest),
                    None => found is None,
                },
                _ => found is None,
            }
        }),
        ({
            let found = value_at(value, seq![SegmentView::Index(place)] + rest);
            match value {
                JsonView::Array(items) => if place < items.len() {
                    found == value_at(items[place as int], rest)
                } else {
                    found is None
                },
                _ => found is None,
            }
        }),
{
    assert((seq![SegmentView::Key(key)] + rest).drop_first() =~= rest);
    assert((seq![SegmentView::Index(place)] + rest).drop_first() =~= rest);
}

/// What a path leads to becomes a variable as it is where it is a text; true
/// and false become these words, anything else becomes its JSON, and null
/// becomes no variable.
pub proof fn values_become_texts(value: JsonView, segments: Seq<SegmentView>)
    ensures
        match value_at(value, segments) {
            None => walked(value, segments) is None,
            Some(JsonView::Null) => walked(value, segments) is None,
            Some(JsonView::Text(t)) => walked(value, segments) == Some(t),
            Some(JsonView::Bool(true)) => walked(value, segments) == Some(
                seq!['t', 'r', 'u', 'e'],
            ),
            Some(JsonView::Bool(false)) => walked(value, segments) == Some(
                seq!['f', 'a', 'l', 's', 'e'],
            ),
            Some(other) => walked(value, segments) == Some(json_text(other)),
        },
{
    reveal_strlit("true");
    reveal_strlit("false");
    assert("true"@ =~= seq!['t', 'r', 'u', 'e']);
    assert("false"@ =~= seq!['f', 'a', 'l', 's', 'e']);
}

/// After a reply a variable has the text of the last extraction under its name
/// that leads to one, and is as it was before where none does. A reply that is
/// no JSON changes nothing.
pub proof fn extractions_set_their_variables(
    vars: Map<Seq<char>, Seq<char>>,
    body: Seq<u8>,
    extracts: Seq<(Seq<char>, Seq<SegmentView>)>,
    name: Seq<char>,
    j: int,
)
    ensures
        ({
            let after = extracted_from(vars, body, extracts);
            match json_parse(body) {
                None => after == vars,
                Some(value) => {
                    &&& 0 <= j < extracts.len() && extracts[j].0 == name && walked(
                        value,
                        extracts[j].1,
                    ) is Some && (forall|k: int|
                        j < k < extracts.len() && (#[trigger] extracts[k]).0 == name ==> walked(
                            value,
                            extracts[k].1,
                        ) is None) ==> after.contains_key(name) && Some(after[name]) == walked(
                        value,
                        extracts[j].1,
                    )
                    &&& (forall|k: int|
                        0 <= k < extracts.len() && (#[trigger] extracts[k]).0 == name ==> walked(
                            value,
                            extracts[k].1,
                        ) is None) ==> after.contains_key(name) == vars.contains_key(name)
                        && after[name] == vars[name]
                },
            }
        }),
{
    if let Some(value) = json_parse(body) {
        if forall|k: int|
            0 <= k < extracts.len() && (#[trigger] extracts[k]).0 == name ==> walked(
                value,
                extracts[k].1,
            ) is None {
            others_stay(vars, value, extracts, name, 0);
            assert(extracts.take(0) =~= seq![]);
        }
        if 0 <= j < extracts.len() && extracts[j].0 == name && walked(value, extracts[j].1) is Some
            && (forall|k: int|
            j < k < extracts.len() && (#[trigger] extracts[k]).0 == name ==> walked(
                value,
                extracts[k].1,
            ) is None) {
            others_stay(vars, value, extracts, name, j + 1);
            assert(extracts.take(j + 1).drop_last() =~= extracts.take(j));
            assert(extracts.take(j + 1).last() == extracts[j]);
        }
    }
}

/// Extractions from some place on that set no variable of a name leave it as
/// it is.
proof fn others_stay(
    vars: Map<Seq<char>, Seq<char>>,
    value: JsonView,
    extracts: Seq<(Seq<char>, Seq<SegmentView>)>,
    name: Seq<char>,
    from: int,
)
    requires
        0 <= from <= extracts.len(),
        forall|k: int|
            from <= k < extracts.len() && (#[trigger] extracts[k]).0 == name ==> walked(
                value,
                extracts[k].1,
            ) is None,
    ensures
        ({
            let before = extracted(vars, value, extracts.take(from));
            let after = extracted(vars, value, extracts);
            after.contains_key(name) == before.contains_key(name) && after[name] == before[name]
        }),
    decreases extracts.len(),
{
    if from < extracts.len() {
        let rest = extracts.drop_last();
        let last = extracts.len() - 1;
        assert(forall|k: int| 0 <= k < rest.len() ==> #[trigger] rest[k] == extracts[k]);
        assert(rest.take(from) =~= extracts.take(from));
        others_stay(vars, value, rest, name, from);
        assert(extracts[last] == extracts.last());
    } else {
        assert(extracts.take(from) =~= extracts);
    }
}

/// A path is made of its pieces between dots: a piece of digits, which may
/// follow a plus, is a place, any other a key.
pub proof fn paths_are_their_pieces(piece: Seq<char>, rest: Seq<char>)
    requires
        piece.len() > 0,
        rest.len() > 0,
        forall|i: int| 0 <= i < piece.len() ==> piece[i] != '.',
        piece[0] != '$' && !is_white(piece[0]) && !is_white(piece.last()),
        rest[0] != '$' && !is_white(rest[0]) && !is_white(rest.last()),
    ensures
        extract_path(piece + seq!['.'] + rest) == extract_path(piece) + extract_path(rest),
        extract_path(piece) == match parse_unsigned(piece, usize::MAX as nat) {
            Some(n) => seq![SegmentView::Index(n as usize)],
            None => seq![SegmentView::Key(piece)],
        },
{
    let whole = piece + seq!['.'] + rest;
    path_is_split(piece);
    path_is_split(rest);
    path_is_split(whole);
    find_from_is_first(whole, '.', 0);
    find_from_is_first(piece, '.', 0);
    let at = find_first(whole, '.');
    assert(whole[piece.len() as int] == '.');
    if at < piece.len() {
        assert(whole[at] == piece[at]);
    }
    assert(whole.take(at) =~= piece);
    assert(whole.skip(at + 1) =~= rest);
    assert(split(whole, '.') == seq![piece] + split(rest, '.'));
    assert(split(whole, '.').drop_first() =~= split(rest, '.'));
    assert(split(piece, '.') == seq![piece]);
    assert(split(piece, '.').drop_first() =~= Seq::<Seq<char>>::empty());
    assert(path_segments(split(piece, '.').drop_first()) =~= seq![]);
    assert(extract_path(piece) =~= seq![segment(piece)]);
}

proof fn path_is_split(path: Seq<char>)
    requires
        path.len() > 0,
        path[0] != '$' && !is_white(path[0]) && !is_white(path.last()),
    ensures
        extract_path(path) == path_segments(split(path, '.')),
{
    reveal_strlit("$.");
    reveal_strlit("$");
    assert(trim(path) == path);
    if "$."@.is_prefix_of(path) {
        assert(path[0] == "$."@[0]);
    }
    if "$"@.is_prefix_of(path) {
        assert(path[0] == "$"@[0]);
    }
}

}
