//! Entity NBT expectations and their SNBT text.
use vstd::prelude::*;

use crate::string_map::{first_index, insert_pairs, law_get_after_insert, lemma_first_index, lookup, Pairs, StringMap};
use crate::text::{
    ascii_lower, chars_of, eq_ignore_ascii_case, is_white_space, lower_seq, push_str, str_eq, strip_leading_ws, strip_trailing_ws, sub_chars,
    trim_whitespace, trim_ws,
};

verus! {

/// One node of a JSON tree; arrays and objects refer to their children by
/// index into the tree's node list.
#[derive(Debug, Clone)]
pub enum JsonNode {
    Null,
    Bool(bool),
    /// A number, kept as the text JSON prints for it.
    Number(String),
    Str(String),
    Array(Vec<usize>),
    Object(Vec<(String, usize)>),
}

/// A JSON value as a tree of nodes: every child comes before its parent, and
/// the value itself is the last node.
#[derive(Debug, Clone)]
pub struct JsonValue {
    pub nodes: Vec<JsonNode>,
}

/// Expected entity NBT: paths and the JSON values they should hold.
#[derive(Debug, Clone)]
pub struct EntityNbt(pub Vec<(String, JsonValue)>);

pub ghost enum NodeView {
    Null,
    Bool(bool),
    Number(Seq<char>),
    Str(Seq<char>),
    Array(Seq<usize>),
    Object(Seq<(Seq<char>, usize)>),
}

impl View for JsonNode {
    type V = NodeView;

    open spec fn view(&self) -> NodeView {
        match self {
            JsonNode::Null => NodeView::Null,
            JsonNode::Bool(b) => NodeView::Bool(*b),
            JsonNode::Number(t) => NodeView::Number(t@),
            JsonNode::Str(s) => NodeView::Str(s@),
            JsonNode::Array(cs) => NodeView::Array(cs@),
            JsonNode::Object(fs) => NodeView::Object(fs@.map_values(|f: (String, usize)| (f.0@, f.1))),
        }
    }
}

/// A JSON tree as the specifications see it: its nodes.
pub type ValueView = Seq<NodeView>;

pub open spec fn node_views(s: Seq<JsonNode>) -> Seq<NodeView> {
    s.map_values(|n: JsonNode| n@)
}

impl View for JsonValue {
    type V = ValueView;

    open spec fn view(&self) -> ValueView {
        node_views(self.nodes@)
    }
}

pub open spec fn nbt_entries(s: Seq<(String, JsonValue)>) -> Seq<(Seq<char>, ValueView)> {
    s.map_values(|e: (String, JsonValue)| (e.0@, e.1@))
}

impl View for EntityNbt {
    type V = Seq<(Seq<char>, ValueView)>;

    open spec fn view(&self) -> Seq<(Seq<char>, ValueView)> {
        nbt_entries(self.0@)
    }
}

impl JsonNode {
    pub fn duplicate(&self) -> (r: Self)
        ensures
            r@ == self@,
    {
        match self {
            JsonNode::Null => JsonNode::Null,
            JsonNode::Bool(b) => JsonNode::Bool(*b),
            JsonNode::Number(t) => JsonNode::Number(t.clone()),
            JsonNode::Str(s) => JsonNode::Str(s.clone()),
            JsonNode::Array(cs) => {
                let mut v: Vec<usize> = Vec::new();
                let mut i: usize = 0;
                while i < cs.len()
                    invariant
                        i <= cs.len(),
                        v@ == cs@.take(i as int),
                    decreases cs.len() - i,
                {
                    v.push(cs[i]);
                    i = i + 1;
                    assert(cs@.take(i as int) == cs@.take((i - 1) as int).push(cs@[i - 1]));
                }
                assert(cs@.take(cs.len() as int) == cs@);
                JsonNode::Array(v)
            },
            JsonNode::Object(fs) => {
                let mut v: Vec<(String, usize)> = Vec::new();
                let mut i: usize = 0;
                while i < fs.len()
                    invariant
                        i <= fs.len(),
                        v.len() == i,
                        forall|k: int| 0 <= k < i ==> (#[trigger] v@[k]).0@ == fs@[k].0@ && v@[k].1 == fs@[k].1,
                    decreases fs.len() - i,
                {
                    v.push((fs[i].0.clone(), fs[i].1));
                    i = i + 1;
                }
                let r = JsonNode::Object(v);
                assert(v@.map_values(|f: (String, usize)| (f.0@, f.1)) =~= fs@.map_values(|f: (String, usize)| (f.0@, f.1)));
                r
            },
        }
    }
}

impl JsonValue {
    pub fn duplicate(&self) -> (r: Self)
        ensures
            r@ == self@,
    {
        let mut v: Vec<JsonNode> = Vec::new();
        let mut i: usize = 0;
        while i < self.nodes.len()
            invariant
                i <= self.nodes.len(),
                v.len() == i,
                forall|k: int| 0 <= k < i ==> (#[trigger] v@[k])@ == self.nodes@[k]@,
            decreases self.nodes.len() - i,
        {
            v.push(self.nodes[i].duplicate());
            i = i + 1;
        }
        let r = JsonValue { nodes: v };
        assert(node_views(v@) =~= node_views(self.nodes@));
        r
    }
}

impl EntityNbt {
    pub fn duplicate(&self) -> (r: Self)
        ensures
            r@ == self@,
    {
        let mut v: Vec<(String, JsonValue)> = Vec::new();
        let mut i: usize = 0;
        while i < self.0.len()
            invariant
                i <= self.0.len(),
                v.len() == i,
                forall|k: int| 0 <= k < i ==> (#[trigger] v@[k]).0@ == self.0@[k].0@ && v@[k].1@ == self.0@[k].1@,
            decreases self.0.len() - i,
        {
            v.push((self.0[i].0.clone(), self.0[i].1.duplicate()));
            i = i + 1;
        }
        let r = EntityNbt(v);
        assert(nbt_entries(v@) =~= nbt_entries(self.0@));
        r
    }
}


pub open spec fn is_digit(c: char) -> bool {
    '0' <= c && c <= '9'
}

/// How many decimal digits `s` starts with.
pub open spec fn leading_digits(s: Seq<char>) -> nat
    decreases s.len(),
{
    if s.len() > 0 && is_digit(s[0]) {
        1 + leading_digits(s.drop_first())
    } else {
        0
    }
}

/// `s` without one leading `+` or `-`.
pub open spec fn strip_sign(s: Seq<char>) -> Seq<char> {
    if s.len() > 0 && (s[0] == '+' || s[0] == '-') {
        s.drop_first()
    } else {
        s
    }
}

/// An exponent after the `e`: an optional sign and at least one digit.
pub open spec fn exponent_ok(e: Seq<char>) -> bool {
    let d = strip_sign(e);
    d.len() > 0 && leading_digits(d) == d.len()
}

/// A decimal number: digits with an optional `.` and fraction digits, at least
/// one digit in all, then an optional exponent.
pub open spec fn decimal_ok(t: Seq<char>) -> bool {
    let a = leading_digits(t);
    let r = t.skip(a as int);
    let has_dot = r.len() > 0 && r[0] == '.';
    let b: nat = if has_dot { leading_digits(r.drop_first()) } else { 0 };
    let r2 = if has_dot { r.drop_first().skip(b as int) } else { r };
    a + b > 0 && (r2.len() == 0 || ((r2[0] == 'e' || r2[0] == 'E') && exponent_ok(r2.drop_first())))
}

/// Whether `s` is text that `f64`'s `FromStr` accepts: an optional sign, then
/// `inf`, `infinity` or `nan` in any case, or a decimal number.
pub open spec fn parses_as_float(s: Seq<char>) -> bool {
    let t = strip_sign(s);
    lower_seq(t) == "inf"@ || lower_seq(t) == "infinity"@ || lower_seq(t) == "nan"@ || decimal_ok(t)
}

/// SNBT number suffixes: byte, short, long, float, double.
pub open spec fn is_number_suffix(c: char) -> bool {
    c == 'b' || c == 'B' || c == 's' || c == 'S' || c == 'l' || c == 'L' || c == 'f' || c == 'F' || c == 'd' || c == 'D'
}

/// A string value that is already SNBT and is written without quotes: a
/// compound or list, a boolean, or a number with a type suffix (after
/// trimming white space).
pub open spec fn raw_snbt_literal(v: Seq<char>) -> bool {
    let t = trim_ws(v);
    ||| t.len() > 0 && (t[0] == '{' || t[0] == '[')
    ||| lower_seq(t) == "true"@
    ||| lower_seq(t) == "false"@
    ||| t.len() > 1 && is_number_suffix(t.last()) && parses_as_float(t.drop_last())
}

proof fn lemma_float_text_starts_plainly(f: Seq<char>)
    requires
        parses_as_float(f),
    ensures
        f.len() > 0,
        !is_white_space(f[0]),
{
    let t = strip_sign(f);
    reveal_strlit("inf");
    reveal_strlit("infinity");
    reveal_strlit("nan");
    if f.len() > 0 && (f[0] == '+' || f[0] == '-') {
    } else {
        assert(t == f);
        if lower_seq(t) == "inf"@ || lower_seq(t) == "infinity"@ || lower_seq(t) == "nan"@ {
            assert(lower_seq(t).len() > 0);
            assert(lower_seq(t)[0] == ascii_lower(t[0]));
        } else {
            let a = leading_digits(t);
            if a == 0 {
                assert(t.skip(0) =~= t);
            }
        }
    }
}

/// A number that `f64` parses, followed by an SNBT type suffix (byte, short,
/// long, float or double, in either case), is an SNBT literal written
/// without quotes.
pub proof fn law_suffixed_number_is_raw(f: Seq<char>, c: char)
    requires
        parses_as_float(f),
        c == 'b' || c == 'B' || c == 's' || c == 'S' || c == 'l' || c == 'L' || c == 'f' || c == 'F' || c == 'd' || c == 'D',
    ensures
        raw_snbt_literal(f.push(c)),
{
    lemma_float_text_starts_plainly(f);
    let v = f.push(c);
    assert(v[0] == f[0]);
    assert(strip_leading_ws(v) == v);
    assert(!is_white_space(c));
    assert(strip_trailing_ws(v) == v);
    assert(trim_ws(v) == v);
    assert(v.drop_last() =~= f);
}

fn count_digits(cs: &Vec<char>, start: usize) -> (n: usize)
    requires
        start <= cs.len(),
    ensures
        n == leading_digits(cs@.skip(start as int)),
        start + n <= cs.len(),
    decreases cs.len() - start,
{
    if start < cs.len() && '0' <= cs[start] && cs[start] <= '9' {
        assert(cs@.skip(start as int).drop_first() =~= cs@.skip(start + 1));
        1 + count_digits(cs, start + 1)
    } else {
        0
    }
}

fn exponent_valid(e: &Vec<char>) -> (r: bool)
    ensures
        r == exponent_ok(e@),
{
    let start: usize = if e.len() > 0 && (e[0] == '+' || e[0] == '-') { 1 } else { 0 };
    assert(strip_sign(e@) == e@.skip(start as int));
    let n = count_digits(e, start);
    e.len() > start && start + n == e.len()
}

fn decimal_valid(t: &Vec<char>) -> (r: bool)
    ensures
        r == decimal_ok(t@),
{
    let a = count_digits(t, 0);
    assert(t@.skip(0) =~= t@);
    let has_dot = a < t.len() && t[a] == '.';
    let (b, rest_start): (usize, usize) = if has_dot {
        let b = count_digits(t, a + 1);
        assert(t@.skip(a as int).drop_first() =~= t@.skip(a + 1));
        (b, a + 1 + b)
    } else {
        (0, a)
    };
    proof {
        if has_dot {
            assert(t@.skip(a as int).drop_first().skip(b as int) =~= t@.skip(rest_start as int));
        }
    }
    if a + b == 0 {
        return false;
    }
    if rest_start == t.len() {
        return true;
    }
    if t[rest_start] != 'e' && t[rest_start] != 'E' {
        return false;
    }
    let e = sub_chars(t, rest_start + 1, t.len());
    assert(t@.skip(rest_start as int).drop_first() =~= e@);
    exponent_valid(&e)
}

/// Whether the characters are text `f64::from_str` accepts.
pub fn float_text_valid(cs: &Vec<char>) -> (r: bool)
    ensures
        r == parses_as_float(cs@),
{
    let start: usize = if cs.len() > 0 && (cs[0] == '+' || cs[0] == '-') { 1 } else { 0 };
    let t = sub_chars(cs, start, cs.len());
    assert(strip_sign(cs@) =~= t@);
    proof {
        reveal_strlit("inf");
        reveal_strlit("infinity");
        reveal_strlit("nan");
        assert(lower_seq("inf"@) =~= "inf"@);
        assert(lower_seq("infinity"@) =~= "infinity"@);
        assert(lower_seq("nan"@) =~= "nan"@);
    }
    if eq_ignore_ascii_case(&t, "inf") || eq_ignore_ascii_case(&t, "infinity") || eq_ignore_ascii_case(&t, "nan") {
        return true;
    }
    decimal_valid(&t)
}

/// Whether a string value is already SNBT and goes out without quotes.
pub fn is_raw_snbt_literal(value: &str) -> (r: bool)
    ensures
        r == raw_snbt_literal(value@),
{
    let cs = chars_of(value);
    let t = trim_whitespace(&cs);
    if t.len() > 0 && (t[0] == '{' || t[0] == '[') {
        return true;
    }
    proof {
        reveal_strlit("true");
        reveal_strlit("false");
        assert(lower_seq("true"@) =~= "true"@);
        assert(lower_seq("false"@) =~= "false"@);
    }
    if eq_ignore_ascii_case(&t, "true") || eq_ignore_ascii_case(&t, "false") {
        return true;
    }
    if t.len() > 1 {
        let c = t[t.len() - 1];
        if c == 'b' || c == 'B' || c == 's' || c == 'S' || c == 'l' || c == 'L' || c == 'f' || c == 'F' || c == 'd'
            || c == 'D' {
            let number = sub_chars(&t, 0, t.len() - 1);
            assert(number@ =~= t@.drop_last());
            return float_text_valid(&number);
        }
    }
    false
}


/// The lower-case hexadecimal digit for `d` (`0 <= d < 16`).
pub open spec fn hex_digit(d: int) -> char {
    if d < 10 {
        ((48 + d) as u8) as char
    } else {
        ((87 + d) as u8) as char
    }
}

/// How one character is written inside a JSON string literal.
pub open spec fn json_escape_char(c: char) -> Seq<char> {
    if c == '"' {
        seq!['\\', '"']
    } else if c == '\\' {
        seq!['\\', '\\']
    } else if c == '\u{8}' {
        seq!['\\', 'b']
    } else if c == '\t' {
        seq!['\\', 't']
    } else if c == '\n' {
        seq!['\\', 'n']
    } else if c == '\u{c}' {
        seq!['\\', 'f']
    } else if c == '\r' {
        seq!['\\', 'r']
    } else if (c as int) < 0x20 {
        seq!['\\', 'u', '0', '0', hex_digit((c as int) / 16), hex_digit((c as int) % 16)]
    } else {
        seq![c]
    }
}

/// The characters of `s`, each escaped for a JSON string literal.
pub open spec fn json_escaped(s: Seq<char>) -> Seq<char>
    decreases s.len(),
{
    if s.len() == 0 {
        Seq::empty()
    } else {
        json_escaped(s.drop_last()) + json_escape_char(s.last())
    }
}

/// `s` as a JSON string literal: quoted and escaped.
pub open spec fn json_quoted(s: Seq<char>) -> Seq<char> {
    seq!['"'] + json_escaped(s) + seq!['"']
}

/// `serde_json::to_string` on a string slice. The contract claims that it
/// succeeds and gives the string in double quotes, with `"` and `\` escaped by a
/// backslash, the control characters backspace, tab, line feed, form feed and
/// carriage return written `\b \t \n \f \r`, every other character below
/// U+0020 written `\u00` and two lower-case hex digits, and all other characters
/// unchanged. (The serializer writes into a `Vec<u8>`, which cannot fail, and a
/// `str` has no error path of its own.)
#[verifier::external_body]
fn json_string_literal(s: &str) -> (r: Option<String>)
    ensures
        r is Some,
        r.unwrap()@ == json_quoted(s@),
{
    serde_json::to_string(s).ok()
}

/// The SNBT text of node `i` of the tree `t`. A child index that does not
/// come before its parent counts as empty text.
pub open spec fn node_snbt(t: Seq<NodeView>, i: nat) -> Seq<char>
    decreases i, 1nat, 0nat,
{
    if i >= t.len() {
        Seq::empty()
    } else {
        match t[i as int] {
            NodeView::Null => seq!['n', 'u', 'l', 'l'],
            NodeView::Bool(b) => if b {
                seq!['t', 'r', 'u', 'e']
            } else {
                seq!['f', 'a', 'l', 's', 'e']
            },
            NodeView::Number(n) => n,
            NodeView::Str(s) => if raw_snbt_literal(s) {
                s
            } else {
                json_quoted(s)
            },
            NodeView::Array(cs) => seq!['['] + items_snbt(t, i, cs, cs.len()) + seq![']'],
            NodeView::Object(fs) => seq!['{'] + fields_snbt(t, i, fs, fs.len()) + seq!['}'],
        }
    }
}

/// The SNBT text of child `c` of node `i`.
pub open spec fn child_snbt(t: Seq<NodeView>, i: nat, c: usize) -> Seq<char>
    decreases i, 0nat, 0nat,
{
    if (c as nat) < i {
        node_snbt(t, c as nat)
    } else {
        Seq::empty()
    }
}

/// The first `n` children of node `i`, comma-separated.
pub open spec fn items_snbt(t: Seq<NodeView>, i: nat, cs: Seq<usize>, n: nat) -> Seq<char>
    decreases i, 0nat, n + 1,
{
    if n == 0 || n > cs.len() {
        Seq::empty()
    } else {
        let item = child_snbt(t, i, cs[n - 1]);
        if n == 1 {
            item
        } else {
            items_snbt(t, i, cs, (n - 1) as nat) + seq![','] + item
        }
    }
}

/// The first `n` fields of node `i` as `key:value`, comma-separated.
pub open spec fn fields_snbt(t: Seq<NodeView>, i: nat, fs: Seq<(Seq<char>, usize)>, n: nat) -> Seq<char>
    decreases i, 0nat, n + 1,
{
    if n == 0 || n > fs.len() {
        Seq::empty()
    } else {
        let item = fs[n - 1].0 + seq![':'] + child_snbt(t, i, fs[n - 1].1);
        if n == 1 {
            item
        } else {
            fields_snbt(t, i, fs, (n - 1) as nat) + seq![','] + item
        }
    }
}

/// The SNBT text of a whole value (its last node); empty for a tree without
/// nodes.
pub open spec fn value_snbt(t: Seq<NodeView>) -> Seq<char> {
    if t.len() == 0 {
        Seq::empty()
    } else {
        node_snbt(t, (t.len() - 1) as nat)
    }
}

/// `s` as a JSON string literal.
fn json_quote(s: &str) -> (r: String)
    ensures
        r@ == json_quoted(s@),
{
    match json_string_literal(s) {
        Some(t) => t,
        None => {
            let mut r = String::new();
            push_str(&mut r, "\"\"");
            r
        },
    }
}

/// A string of the characters of a literal.
fn text_of(lit: &str) -> (r: String)
    ensures
        r@ == lit@,
{
    let mut r = String::new();
    push_str(&mut r, lit);
    assert(r@ =~= lit@);
    r
}

/// The SNBT text of node `k`, given the texts of all nodes before it.
fn node_text(nodes: &Vec<JsonNode>, k: usize, texts: &Vec<String>) -> (r: String)
    requires
        k < nodes.len(),
        texts.len() == k,
        forall|j: int| 0 <= j < k ==> (#[trigger] texts@[j])@ == node_snbt(node_views(nodes@), j as nat),
    ensures
        r@ == node_snbt(node_views(nodes@), k as nat),
{
    let ghost t = node_views(nodes@);
    assert(t[k as int] == nodes@[k as int]@);
    match &nodes[k] {
        JsonNode::Null => {
            proof {
                reveal_strlit("null");
            }
            text_of("null")
        },
        JsonNode::Bool(b) => {
            proof {
                reveal_strlit("true");
                reveal_strlit("false");
            }
            if *b {
                text_of("true")
            } else {
                text_of("false")
            }
        },
        JsonNode::Number(n) => n.clone(),
        JsonNode::Str(s) => {
            if is_raw_snbt_literal(s.as_str()) {
                s.clone()
            } else {
                json_quote(s.as_str())
            }
        },
        JsonNode::Array(cs) => {
            let mut r = String::new();
            r.push('[');
            let mut m: usize = 0;
            while m < cs.len()
                invariant
                    m <= cs.len(),
                    k < nodes.len(),
                    texts.len() == k,
                    t == node_views(nodes@),
                    forall|j: int| 0 <= j < k ==> (#[trigger] texts@[j])@ == node_snbt(t, j as nat),
                    r@ == seq!['['] + items_snbt(t, k as nat, cs@, m as nat),
                decreases cs.len() - m,
            {
                let ghost before = r@;
                if m > 0 {
                    r.push(',');
                }
                let c = cs[m];
                let ghost item = child_snbt(t, k as nat, c);
                if c < k {
                    assert(item == (texts@[c as int])@);
                    push_str(&mut r, texts[c].as_str());
                } else {
                    assert(item =~= Seq::<char>::empty());
                }
                proof {
                    let next = items_snbt(t, k as nat, cs@, (m + 1) as nat);
                    if m == 0 {
                        assert(next == item);
                    } else {
                        assert(next == items_snbt(t, k as nat, cs@, m as nat) + seq![','] + item);
                    }
                }
                m = m + 1;
                assert(r@ =~= seq!['['] + items_snbt(t, k as nat, cs@, m as nat));
            }
            r.push(']');
            r
        },
        JsonNode::Object(fs) => {
            let ghost fv = fs@.map_values(|f: (String, usize)| (f.0@, f.1));
            let mut r = String::new();
            r.push('{');
            let mut m: usize = 0;
            while m < fs.len()
                invariant
                    m <= fs.len(),
                    k < nodes.len(),
                    texts.len() == k,
                    t == node_views(nodes@),
                    fv == fs@.map_values(|f: (String, usize)| (f.0@, f.1)),
                    forall|j: int| 0 <= j < k ==> (#[trigger] texts@[j])@ == node_snbt(t, j as nat),
                    r@ == seq!['{'] + fields_snbt(t, k as nat, fv, m as nat),
                decreases fs.len() - m,
            {
                if m > 0 {
                    r.push(',');
                }
                push_str(&mut r, fs[m].0.as_str());
                r.push(':');
                let c = fs[m].1;
                let ghost item = fv[m as int].0 + seq![':'] + child_snbt(t, k as nat, c);
                assert(fv[m as int].0 == fs@[m as int].0@ && fv[m as int].1 == c);
                if c < k {
                    assert(child_snbt(t, k as nat, c) == (texts@[c as int])@);
                    push_str(&mut r, texts[c].as_str());
                } else {
                    assert(child_snbt(t, k as nat, c) =~= Seq::<char>::empty());
                }
                proof {
                    let next = fields_snbt(t, k as nat, fv, (m + 1) as nat);
                    if m == 0 {
                        assert(next == item);
                    } else {
                        assert(next == fields_snbt(t, k as nat, fv, m as nat) + seq![','] + item);
                    }
                }
                m = m + 1;
                assert(r@ =~= seq!['{'] + fields_snbt(t, k as nat, fv, m as nat));
            }
            r.push('}');
            r
        },
    }
}

/// The SNBT text of a JSON value: strings that are already SNBT literals stay
/// bare, other strings are quoted as JSON, arrays and objects are written
/// with `[..]` and `{key:value,..}`.
pub fn json_value_to_snbt(value: &JsonValue) -> (r: String)
    ensures
        r@ == value_snbt(value@),
{
    let nodes = &value.nodes;
    let ghost t = node_views(nodes@);
    let mut texts: Vec<String> = Vec::new();
    let mut k: usize = 0;
    while k < nodes.len()
        invariant
            k <= nodes.len(),
            texts.len() == k,
            t == node_views(nodes@),
            forall|j: int| 0 <= j < k ==> (#[trigger] texts@[j])@ == node_snbt(t, j as nat),
        decreases nodes.len() - k,
    {
        let s = node_text(nodes, k, &texts);
        texts.push(s);
        k = k + 1;
    }
    if nodes.len() == 0 {
        String::new()
    } else {
        let last = nodes.len() - 1;
        assert((texts@[last as int])@ == node_snbt(t, last as nat));
        texts[last].clone()
    }
}

/// The first `n` entries as `path:value`, comma-separated.
pub open spec fn entries_snbt(e: Seq<(Seq<char>, ValueView)>, n: nat) -> Seq<char>
    decreases n,
{
    if n == 0 || n > e.len() {
        Seq::empty()
    } else {
        let item = e[n - 1].0 + seq![':'] + value_snbt(e[n - 1].1);
        if n == 1 {
            item
        } else {
            entries_snbt(e, (n - 1) as nat) + seq![','] + item
        }
    }
}

/// The SNBT compound written for entity NBT: `{}` when it is empty.
pub open spec fn entity_snbt(e: Seq<(Seq<char>, ValueView)>) -> Seq<char> {
    seq!['{'] + entries_snbt(e, e.len()) + seq!['}']
}

/// The text an entity assertion compares against: a string as it is, any
/// other value as its SNBT text.
pub open spec fn value_assert_text(t: ValueView) -> Seq<char> {
    if t.len() > 0 && t.last() is Str {
        t.last()->Str_0
    } else {
        value_snbt(t)
    }
}

/// What collecting `(path, expected text)` pairs into a map gives: a later
/// entry replaces an earlier one with the same path.
pub open spec fn expected_pairs(e: Seq<(Seq<char>, ValueView)>) -> Pairs
    decreases e.len(),
{
    if e.len() == 0 {
        Seq::empty()
    } else {
        insert_pairs(expected_pairs(e.drop_last()), e.last().0, value_assert_text(e.last().1))
    }
}

/// What extending the map `s` by the entries `f` in order gives.
pub open spec fn extend_pairs<V>(s: Seq<(Seq<char>, V)>, f: Seq<(Seq<char>, V)>) -> Seq<(Seq<char>, V)>
    decreases f.len(),
{
    if f.len() == 0 {
        s
    } else {
        insert_pairs(extend_pairs(s, f.drop_last()), f.last().0, f.last().1)
    }
}

/// The text an entity assertion compares a value against.
pub fn json_value_to_entity_assert_string(value: &JsonValue) -> (r: String)
    ensures
        r@ == value_assert_text(value@),
{
    let n = value.nodes.len();
    if n > 0 {
        assert(value@.last() == value.nodes@[n - 1]@);
        if let JsonNode::Str(s) = &value.nodes[n - 1] {
            return s.clone();
        }
    }
    json_value_to_snbt(value)
}

/// Stores `value` under `key` in an entry list, replacing the value of an
/// existing key in place.
fn insert_entry(entries: &mut Vec<(String, JsonValue)>, key: String, value: JsonValue)
    ensures
        nbt_entries(final(entries)@) == insert_pairs(nbt_entries(old(entries)@), key@, value@),
{
    let ghost s = nbt_entries(entries@);
    proof {
        lemma_first_index(s, key@);
    }
    let mut i: usize = 0;
    while i < entries.len()
        invariant
            i <= entries.len(),
            s == nbt_entries(entries@),
            s == nbt_entries(old(entries)@),
            forall|j: int| 0 <= j < i ==> s[j].0 != key@,
            -1 <= first_index(s, key@) < s.len(),
            first_index(s, key@) >= 0 ==> s[first_index(s, key@)].0 == key@,
            forall|j: int| 0 <= j < s.len() && (first_index(s, key@) < 0 || j < first_index(s, key@)) ==> s[j].0 != key@,
        decreases entries.len() - i,
    {
        assert(s[i as int].0 == entries@[i as int].0@);
        if str_eq(entries[i].0.as_str(), key.as_str()) {
            assert(first_index(s, key@) == i);
            let ghost kv = key@;
            let ghost vv = value@;
            entries.set(i, (key, value));
            assert(nbt_entries(entries@) =~= s.update(i as int, (kv, vv)));
            assert(insert_pairs(s, kv, vv) == s.update(i as int, (kv, vv)));
            return;
        }
        i = i + 1;
    }
    assert(first_index(s, key@) < 0);
    let ghost kv = key@;
    let ghost vv = value@;
    entries.push((key, value));
    assert(nbt_entries(entries@) =~= s.push((kv, vv)));
}

impl EntityNbt {
    /// The SNBT compound of all entries, `{path:value,..}`.
    pub fn to_snbt(&self) -> (r: String)
        ensures
            r@ == entity_snbt(self@),
    {
        let ghost e = self@;
        let mut r = String::new();
        r.push('{');
        let mut i: usize = 0;
        while i < self.0.len()
            invariant
                i <= self.0.len(),
                e == nbt_entries(self.0@),
                r@ == seq!['{'] + entries_snbt(e, i as nat),
            decreases self.0.len() - i,
        {
            if i > 0 {
                r.push(',');
            }
            push_str(&mut r, self.0[i].0.as_str());
            r.push(':');
            let v = json_value_to_snbt(&self.0[i].1);
            push_str(&mut r, v.as_str());
            proof {
                let item = e[i as int].0 + seq![':'] + value_snbt(e[i as int].1);
                let next = entries_snbt(e, (i + 1) as nat);
                if i == 0 {
                    assert(next == item);
                } else {
                    assert(next == entries_snbt(e, i as nat) + seq![','] + item);
                }
            }
            i = i + 1;
            assert(r@ =~= seq!['{'] + entries_snbt(e, i as nat));
        }
        r.push('}');
        r
    }

    /// The NBT paths an entity read must report, in order.
    pub fn requested_paths(&self) -> (r: Vec<String>)
        ensures
            r.len() == self@.len(),
            forall|i: int| 0 <= i < r.len() ==> #[trigger] r[i]@ == self@[i].0,
    {
        let mut r: Vec<String> = Vec::new();
        let mut i: usize = 0;
        while i < self.0.len()
            invariant
                i <= self.0.len(),
                r.len() == i,
                forall|j: int| 0 <= j < i ==> #[trigger] r[j]@ == self@[j].0,
            decreases self.0.len() - i,
        {
            r.push(self.0[i].0.clone());
            i = i + 1;
        }
        r
    }

    /// Each path with the text its value is compared against.
    pub fn expected_values(&self) -> (r: StringMap)
        ensures
            r@ == expected_pairs(self@),
    {
        let ghost e = self@;
        let mut r = StringMap::new();
        let mut i: usize = 0;
        while i < self.0.len()
            invariant
                i <= self.0.len(),
                e == nbt_entries(self.0@),
                r@ == expected_pairs(e.take(i as int)),
            decreases self.0.len() - i,
        {
            let text = json_value_to_entity_assert_string(&self.0[i].1);
            r.insert(self.0[i].0.clone(), text);
            assert(e.take(i + 1).drop_last() =~= e.take(i as int));
            i = i + 1;
        }
        assert(e.take(e.len() as int) =~= e);
        r
    }
}

/// The extra fields of a `summon` action as entity NBT: none when there
/// are no fields.
pub fn entity_nbt_from_fields(fields: Vec<(String, JsonValue)>) -> (r: Option<Vec<(String, JsonValue)>>)
    ensures
        fields.len() == 0 ==> r is None,
        fields.len() > 0 ==> r == Some(fields),
{
    if fields.len() == 0 {
        None
    } else {
        Some(fields)
    }
}

/// Entity NBT given under `nbt` together with the fields written beside it:
/// the fields beside it are added in order and win over a path of the same
/// name.
pub fn merge_entity_nbt(explicit: Option<EntityNbt>, flattened: Option<Vec<(String, JsonValue)>>) -> (r: Option<EntityNbt>)
    ensures
        (explicit is None && flattened is None) <==> r is None,
        r matches Some(n) ==> n@ == match (explicit, flattened) {
            (Some(x), Some(f)) => extend_pairs(x@, nbt_entries(f@)),
            (Some(x), None) => x@,
            (None, Some(f)) => nbt_entries(f@),
            (None, None) => Seq::empty(),
        },
{
    match (explicit, flattened) {
        (None, None) => None,
        (Some(nbt), None) => Some(nbt),
        (None, Some(fields)) => Some(EntityNbt(fields)),
        (Some(nbt), Some(fields)) => {
            let mut entries = nbt.0;
            let ghost x = nbt_entries(entries@);
            let ghost f = nbt_entries(fields@);
            let mut i: usize = 0;
            while i < fields.len()
                invariant
                    i <= fields.len(),
                    f == nbt_entries(fields@),
                    nbt_entries(entries@) == extend_pairs(x, f.take(i as int)),
                decreases fields.len() - i,
            {
                let k = fields[i].0.clone();
                let v = fields[i].1.duplicate();
                assert(k@ == f[i as int].0 && v@ == f[i as int].1);
                insert_entry(&mut entries, k, v);
                assert(f.take(i + 1).drop_last() =~= f.take(i as int));
                i = i + 1;
            }
            assert(f.take(f.len() as int) =~= f);
            Some(EntityNbt(entries))
        },
    }
}

impl JsonValue {
    /// The value made of one node.
    pub fn leaf(node: JsonNode) -> (r: Self)
        ensures
            r@ == seq![node@],
    {
        let mut nodes: Vec<JsonNode> = Vec::new();
        let ghost n = node@;
        nodes.push(node);
        let r = JsonValue { nodes };
        assert(r@ =~= seq![n]);
        r
    }

    /// A JSON string.
    pub fn string(s: &str) -> (r: Self)
        ensures
            r@ == seq![NodeView::Str(s@)],
    {
        let mut t = String::new();
        push_str(&mut t, s);
        JsonValue::leaf(JsonNode::Str(t))
    }
}

impl EntityNbt {
    /// Entity NBT whose values are all JSON strings.
    pub fn from_string_values(pairs: Vec<(String, String)>) -> (r: Self)
        ensures
            r@.len() == pairs@.len(),
            forall|k: int|
                0 <= k < pairs@.len() ==> (#[trigger] r@[k]).0 == pairs@[k].0@ && r@[k].1 == seq![NodeView::Str(pairs@[k].1@)],
    {
        let mut v: Vec<(String, JsonValue)> = Vec::new();
        let mut i: usize = 0;
        while i < pairs.len()
            invariant
                i <= pairs.len(),
                v.len() == i,
                forall|k: int|
                    0 <= k < i ==> (#[trigger] v@[k]).0@ == pairs@[k].0@ && v@[k].1@ == seq![NodeView::Str(pairs@[k].1@)],
            decreases pairs.len() - i,
        {
            v.push((pairs[i].0.clone(), JsonValue::string(pairs[i].1.as_str())));
            i = i + 1;
        }
        EntityNbt(v)
    }
}

/// The value of the last entry of `f` with key `k`.
pub open spec fn last_value<V>(f: Seq<(Seq<char>, V)>, k: Seq<char>) -> Option<V>
    decreases f.len(),
{
    if f.len() == 0 {
        None
    } else if f.last().0 == k {
        Some(f.last().1)
    } else {
        last_value(f.drop_last(), k)
    }
}

/// After merging, a path written beside `nbt` has the value written there
/// (the last one, if written twice); any other path keeps the value the
/// explicit `nbt` gave it.
pub proof fn law_merge_prefers_flattened<V>(x: Seq<(Seq<char>, V)>, f: Seq<(Seq<char>, V)>, k: Seq<char>)
    ensures
        lookup(extend_pairs(x, f), k) == match last_value(f, k) {
            Some(v) => Some(v),
            None => lookup(x, k),
        },
    decreases f.len(),
{
    if f.len() > 0 {
        law_merge_prefers_flattened(x, f.drop_last(), k);
        law_get_after_insert(extend_pairs(x, f.drop_last()), f.last().0, f.last().1, k);
    }
}

} // verus!
