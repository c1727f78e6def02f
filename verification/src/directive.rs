//! Directive templating.
//!
//! A directive is an authored string in which `{...}` spans are
//! substituted.  Inside a delimiter three forms are tried in this order:
//! `<a>ALIAS` puts in the entity identifier bound to the alias;
//! `ALIAS.PROP` the display form of that entity's positive property; and
//! `PROP` the display form of a global world property.  Text outside
//! delimiters, and any `{` that does not open a well-formed span, is
//! copied verbatim.  A failure names the offending token.

use vstd::prelude::*;

use crate::alias_map::AliasMap;
use crate::entity::EntityId;
use crate::story_world::{ent_get, ent_has, StoryWorld};
use crate::text::{dec_chars, prop_chars};

verus! {

/// The outcome of rendering: the finished text, or a failure message.
pub enum Rendered {
    Done(Seq<char>),
    Fail(Seq<char>),
}

/// A letter, digit or underscore.
pub open spec fn is_word_char(c: char) -> bool {
    ||| '0' <= c && c <= '9'
    ||| 'a' <= c && c <= 'z'
    ||| 'A' <= c && c <= 'Z'
    ||| c == '_'
}

/// A character allowed inside a `{...}` span.
pub open spec fn is_token_char(c: char) -> bool {
    is_word_char(c) || c == '<' || c == '>' || c == '.'
}

/// Length of the leading run of span characters.
pub open spec fn token_run(s: Seq<char>) -> nat
    decreases s.len(),
{
    if s.len() == 0 || !is_token_char(s[0]) {
        0
    } else {
        1 + token_run(s.skip(1))
    }
}

/// Length of the leading run of word characters.
pub open spec fn word_run(s: Seq<char>) -> nat
    decreases s.len(),
{
    if s.len() == 0 || !is_word_char(s[0]) {
        0
    } else {
        1 + word_run(s.skip(1))
    }
}

/// Does an alias reference `<a>NAME` start at this position?
pub open spec fn aref_at(s: Seq<char>, p: int) -> bool {
    &&& 0 <= p
    &&& p + 3 < s.len()
    &&& s[p] == '<'
    &&& s[p + 1] == 'a'
    &&& s[p + 2] == '>'
    &&& is_word_char(s[p + 3])
}

/// The first position of an alias reference, or -1.
pub open spec fn find_aref(s: Seq<char>) -> int
    decreases s.len(),
{
    if s.len() < 4 {
        -1
    } else if aref_at(s, 0) {
        0
    } else if find_aref(s.skip(1)) == -1 {
        -1
    } else {
        1 + find_aref(s.skip(1))
    }
}

/// Does a qualifying dot stand at this position: a word character on
/// either side of a `.`?
pub open spec fn qdot_at(s: Seq<char>, d: int) -> bool {
    &&& 1 <= d
    &&& d + 1 < s.len()
    &&& s[d] == '.'
    &&& is_word_char(s[d - 1])
    &&& is_word_char(s[d + 1])
}

/// The first qualifying dot at or after position `i`, or -1.
pub open spec fn find_qdot(s: Seq<char>, i: int) -> int
    decreases s.len() - i,
{
    if i < 1 || i + 1 >= s.len() {
        -1
    } else if qdot_at(s, i) {
        i
    } else {
        find_qdot(s, i + 1)
    }
}

/// The first position of a word character, or -1.
pub open spec fn find_word(s: Seq<char>) -> int
    decreases s.len(),
{
    if s.len() == 0 {
        -1
    } else if is_word_char(s[0]) {
        0
    } else if find_word(s.skip(1)) == -1 {
        -1
    } else {
        1 + find_word(s.skip(1))
    }
}

/// Length of the run of word characters ending just before position `i`.
pub open spec fn word_run_back(s: Seq<char>, i: int) -> nat
    decreases i,
{
    if i <= 0 || !is_word_char(s[i - 1]) {
        0
    } else {
        1 + word_run_back(s, i - 1)
    }
}

pub open spec fn missing_alias_msg(name: Seq<char>) -> Seq<char> {
    "missing alias \""@ + name + "\""@
}

pub open spec fn missing_entity_msg(id: EntityId, alias: Seq<char>) -> Seq<char> {
    "Entity \""@ + dec_chars(id as nat) + "\" bound to \""@ + alias + "\" is missing"@
}

pub open spec fn missing_property_msg(id: EntityId, alias: Seq<char>, prop: Seq<char>) -> Seq<
    char,
> {
    "Entity \""@ + dec_chars(id as nat) + "\" bound to \""@ + alias
        + "\" is missing the property \""@ + prop + "\""@
}

pub open spec fn missing_world_msg(name: Seq<char>) -> Seq<char> {
    "Missing world property \""@ + name + "\""@
}

pub open spec fn malformed_msg(token: Seq<char>) -> Seq<char> {
    "Malformed property path \""@ + token + "\""@
}

/// The substitution a token denotes, or the failure it raises.
pub open spec fn eval_token(
    token: Seq<char>,
    b: Map<Seq<char>, EntityId>,
    w: StoryWorld,
) -> Rendered {
    if find_aref(token) >= 0 {
        let p = find_aref(token);
        let name = token.subrange(p + 3, p + 3 + word_run(token.skip(p + 3)));
        if b.contains_key(name) {
            Rendered::Done(dec_chars(b[name] as nat))
        } else {
            Rendered::Fail(missing_alias_msg(name))
        }
    } else if find_qdot(token, 1) >= 0 {
        let d = find_qdot(token, 1);
        let alias = token.subrange(d - word_run_back(token, d), d);
        let prop = token.subrange(d + 1, d + 1 + word_run(token.skip(d + 1)));
        if !b.contains_key(alias) {
            Rendered::Fail(missing_alias_msg(alias))
        } else {
            let id = b[alias];
            if !ent_has(w.entities@, id) {
                Rendered::Fail(missing_entity_msg(id, alias))
            } else {
                let e = ent_get(w.entities@, id);
                if e.properties@.contains_key(prop) {
                    Rendered::Done(prop_chars(e.properties@[prop]))
                } else {
                    Rendered::Fail(missing_property_msg(id, alias, prop))
                }
            }
        }
    } else if find_word(token) >= 0 {
        let p = find_word(token);
        let name = token.subrange(p, p + word_run(token.skip(p)));
        if w.properties@.contains_key(name) {
            Rendered::Done(prop_chars(w.properties@[name]))
        } else {
            Rendered::Fail(missing_world_msg(name))
        }
    } else {
        Rendered::Fail(malformed_msg(token))
    }
}

/// Prefix already rendered, carried over the rest of the template.
pub open spec fn prepend_out(prefix: Seq<char>, r: Rendered) -> Rendered {
    match r {
        Rendered::Done(o) => Rendered::Done(prefix + o),
        Rendered::Fail(m) => Rendered::Fail(m),
    }
}

/// Render a template left to right: text outside well-formed `{...}`
/// spans is copied, spans are substituted, and the first failing token
/// aborts the rendering with its message.
pub open spec fn spec_render(t: Seq<char>, b: Map<Seq<char>, EntityId>, w: StoryWorld) -> Rendered
    decreases t.len(),
{
    if t.len() == 0 {
        Rendered::Done(Seq::empty())
    } else if t[0] == '{' {
        let run = token_run(t.skip(1)) as int;
        if run >= 1 && 1 + run < t.len() && t[1 + run] == '}' {
            let token = t.subrange(1, 1 + run);
            match eval_token(token, b, w) {
                Rendered::Done(sub) => prepend_out(sub, spec_render(t.skip(2 + run), b, w)),
                Rendered::Fail(m) => Rendered::Fail(m),
            }
        } else {
            prepend_out(seq![t[0]], spec_render(t.skip(1), b, w))
        }
    } else {
        prepend_out(seq![t[0]], spec_render(t.skip(1), b, w))
    }
}

} // verus!

use crate::story_graph::AliasError;
use crate::story_node::StoryNode;
use crate::text::usize_text;

verus! {

proof fn lemma_token_run_at(s: Seq<char>, r: int)
    requires
        0 <= r <= s.len(),
        forall|x: int| 0 <= x < r ==> is_token_char(#[trigger] s[x]),
        r == s.len() || !is_token_char(s[r]),
    ensures
        token_run(s) == r,
    decreases r,
{
    if r == 0 {
    } else {
        assert(is_token_char(s[0]));
        assert forall|x: int| 0 <= x < r - 1 implies is_token_char(#[trigger] s.skip(1)[x]) by {
            assert(s.skip(1)[x] == s[x + 1]);
        }
        if r < s.len() {
            assert(s.skip(1)[r - 1] == s[r]);
        }
        lemma_token_run_at(s.skip(1), r - 1);
    }
}

proof fn lemma_word_run_at(s: Seq<char>, r: int)
    requires
        0 <= r <= s.len(),
        forall|x: int| 0 <= x < r ==> is_word_char(#[trigger] s[x]),
        r == s.len() || !is_word_char(s[r]),
    ensures
        word_run(s) == r,
    decreases r,
{
    if r == 0 {
    } else {
        assert(is_word_char(s[0]));
        assert forall|x: int| 0 <= x < r - 1 implies is_word_char(#[trigger] s.skip(1)[x]) by {
            assert(s.skip(1)[x] == s[x + 1]);
        }
        if r < s.len() {
            assert(s.skip(1)[r - 1] == s[r]);
        }
        lemma_word_run_at(s.skip(1), r - 1);
    }
}

proof fn lemma_word_run_back_at(s: Seq<char>, i: int, r: int)
    requires
        0 <= r <= i <= s.len(),
        forall|x: int| i - r <= x < i ==> is_word_char(#[trigger] s[x]),
        i - r == 0 || !is_word_char(s[i - r - 1]),
    ensures
        word_run_back(s, i) == r,
    decreases r,
{
    if r == 0 {
    } else {
        assert(is_word_char(s[i - 1]));
        lemma_word_run_back_at(s, i - 1, r - 1);
    }
}

proof fn lemma_find_aref_at(s: Seq<char>, p: int)
    requires
        aref_at(s, p),
        forall|q: int| 0 <= q < p ==> !aref_at(s, q),
    ensures
        find_aref(s) == p,
    decreases p,
{
    if p == 0 {
    } else {
        assert(!aref_at(s, 0));
        assert(aref_at(s.skip(1), p - 1)) by {
            assert(s.skip(1)[p - 1] == s[p]);
            assert(s.skip(1)[p] == s[p + 1]);
            assert(s.skip(1)[p + 1] == s[p + 2]);
            assert(s.skip(1)[p + 2] == s[p + 3]);
        }
        assert forall|q: int| 0 <= q < p - 1 implies !aref_at(s.skip(1), q) by {
            if aref_at(s.skip(1), q) {
                assert(s.skip(1)[q] == s[q + 1]);
                assert(s.skip(1)[q + 1] == s[q + 2]);
                assert(s.skip(1)[q + 2] == s[q + 3]);
                assert(s.skip(1)[q + 3] == s[q + 4]);
                assert(aref_at(s, q + 1));
            }
        }
        lemma_find_aref_at(s.skip(1), p - 1);
    }
}

proof fn lemma_find_aref_none(s: Seq<char>)
    requires
        forall|q: int| !aref_at(s, q),
    ensures
        find_aref(s) == -1,
    decreases s.len(),
{
    if s.len() >= 4 {
        assert(!aref_at(s, 0));
        assert forall|q: int| !aref_at(s.skip(1), q) by {
            if aref_at(s.skip(1), q) {
                assert(s.skip(1)[q] == s[q + 1]);
                assert(s.skip(1)[q + 1] == s[q + 2]);
                assert(s.skip(1)[q + 2] == s[q + 3]);
                assert(s.skip(1)[q + 3] == s[q + 4]);
                assert(aref_at(s, q + 1));
            }
        }
        lemma_find_aref_none(s.skip(1));
    }
}

proof fn lemma_find_word_at(s: Seq<char>, p: int)
    requires
        0 <= p < s.len(),
        is_word_char(s[p]),
        forall|q: int| 0 <= q < p ==> !is_word_char(#[trigger] s[q]),
    ensures
        find_word(s) == p,
    decreases p,
{
    if p == 0 {
    } else {
        assert(!is_word_char(s[0]));
        assert(s.skip(1)[p - 1] == s[p]);
        assert forall|q: int| 0 <= q < p - 1 implies !is_word_char(#[trigger] s.skip(1)[q]) by {
            assert(s.skip(1)[q] == s[q + 1]);
        }
        lemma_find_word_at(s.skip(1), p - 1);
    }
}

proof fn lemma_find_word_none(s: Seq<char>)
    requires
        forall|q: int| 0 <= q < s.len() ==> !is_word_char(#[trigger] s[q]),
    ensures
        find_word(s) == -1,
    decreases s.len(),
{
    if s.len() > 0 {
        assert forall|q: int| 0 <= q < s.skip(1).len() implies !is_word_char(
            #[trigger] s.skip(1)[q],
        ) by {
            assert(s.skip(1)[q] == s[q + 1]);
        }
        lemma_find_word_none(s.skip(1));
    }
}

proof fn lemma_find_qdot_at(s: Seq<char>, i: int, d: int)
    requires
        1 <= i <= d,
        qdot_at(s, d),
        forall|q: int| i <= q < d ==> !qdot_at(s, q),
    ensures
        find_qdot(s, i) == d,
    decreases d - i,
{
    if i < d {
        lemma_find_qdot_at(s, i + 1, d);
    }
}

proof fn lemma_find_qdot_none(s: Seq<char>, i: int)
    requires
        1 <= i,
        forall|q: int| i <= q ==> !qdot_at(s, q),
    ensures
        find_qdot(s, i) == -1,
    decreases s.len() - i,
{
    if i + 1 < s.len() {
        lemma_find_qdot_none(s, i + 1);
    }
}

/// Is this a word character?
fn word_char(c: char) -> (r: bool)
    ensures
        r == is_word_char(c),
{
    ('0' <= c && c <= '9') || ('a' <= c && c <= 'z') || ('A' <= c && c <= 'Z') || c == '_'
}

/// Is this a character a `{...}` span may hold?
fn token_char(c: char) -> (r: bool)
    ensures
        r == is_token_char(c),
{
    word_char(c) || c == '<' || c == '>' || c == '.'
}

fn err_missing_alias(name: &str) -> (e: AliasError)
    ensures
        e.msg@ == missing_alias_msg(name@),
{
    let mut m = String::from_str("missing alias \"");
    m.append(name);
    m.append("\"");
    AliasError { msg: m }
}

fn err_missing_entity(id: EntityId, alias: &str) -> (e: AliasError)
    ensures
        e.msg@ == missing_entity_msg(id, alias@),
{
    let mut m = String::from_str("Entity \"");
    m.append(usize_text(id).as_str());
    m.append("\" bound to \"");
    m.append(alias);
    m.append("\" is missing");
    AliasError { msg: m }
}

fn err_missing_property(id: EntityId, alias: &str, prop: &str) -> (e: AliasError)
    ensures
        e.msg@ == missing_property_msg(id, alias@, prop@),
{
    let mut m = String::from_str("Entity \"");
    m.append(usize_text(id).as_str());
    m.append("\" bound to \"");
    m.append(alias);
    m.append("\" is missing the property \"");
    m.append(prop);
    m.append("\"");
    AliasError { msg: m }
}

fn err_missing_world(name: &str) -> (e: AliasError)
    ensures
        e.msg@ == missing_world_msg(name@),
{
    let mut m = String::from_str("Missing world property \"");
    m.append(name);
    m.append("\"");
    AliasError { msg: m }
}

fn err_malformed(token: &str) -> (e: AliasError)
    ensures
        e.msg@ == malformed_msg(token@),
{
    let mut m = String::from_str("Malformed property path \"");
    m.append(token);
    m.append("\"");
    AliasError { msg: m }
}

} // verus!

verus! {

/// Scan the leading word run starting at `from`.
fn scan_word_run(token: &str, from: usize, n: usize) -> (e: usize)
    requires
        n == token@.len(),
        from <= n,
    ensures
        from <= e <= n,
        word_run(token@.skip(from as int)) == e - from,
{
    let mut e: usize = from;
    while e < n
        invariant
            from <= e <= n == token@.len(),
            forall|x: int| from <= x < e ==> is_word_char(#[trigger] token@[x]),
        decreases n - e,
    {
        if !word_char(token.get_char(e)) {
            proof {
                lemma_word_run_scan(token@, from as int, e as int);
            }
            return e;
        }
        e = e + 1;
    }
    proof {
        lemma_word_run_scan(token@, from as int, e as int);
    }
    e
}

proof fn lemma_word_run_scan(s: Seq<char>, from: int, e: int)
    requires
        0 <= from <= e <= s.len(),
        forall|x: int| from <= x < e ==> is_word_char(#[trigger] s[x]),
        e == s.len() || !is_word_char(s[e]),
    ensures
        word_run(s.skip(from)) == e - from,
{
    let t = s.skip(from);
    assert forall|x: int| 0 <= x < e - from implies is_word_char(#[trigger] t[x]) by {
        assert(t[x] == s[x + from]);
    }
    if e < s.len() {
        assert(t[e - from] == s[e]);
    }
    lemma_word_run_at(t, e - from);
}

/// Substitute one token under a binding and a world.
fn eval_token_ex(token: &str, alias_map: &AliasMap, world: &StoryWorld) -> (r: Result<
    String,
    AliasError,
>)
    ensures
        match r {
            Ok(s) => eval_token(token@, alias_map@, *world) == Rendered::Done(s@),
            Err(e) => eval_token(token@, alias_map@, *world) == Rendered::Fail(e.msg@),
        },
{
    let n = token.unicode_len();
    let mut p: usize = 0;
    while n > 3 && p < n - 3
        invariant
            n == token@.len(),
            p <= n,
            forall|q: int| 0 <= q < p ==> !aref_at(token@, q),
        decreases n - p,
    {
        if token.get_char(p) == '<' && token.get_char(p + 1) == 'a' && token.get_char(p + 2)
            == '>' && word_char(token.get_char(p + 3)) {
            proof {
                lemma_find_aref_at(token@, p as int);
            }
            let e = scan_word_run(token, p + 3, n);
            let name = token.substring_char(p + 3, e);
            match alias_map.get(name) {
                Some(id) => {
                    return Ok(usize_text(id));
                },
                None => {
                    return Err(err_missing_alias(name));
                },
            }
        }
        p = p + 1;
    }
    proof {
        assert forall|q: int| !aref_at(token@, q) by {
            if 0 <= q < p {
            } else if q >= p {
                assert(q + 3 >= n);
            }
        }
        lemma_find_aref_none(token@);
    }
    if n >= 1 {
        let mut d: usize = 1;
        while n > 1 && d < n - 1
            invariant
                1 <= d,
                n == token@.len(),
                find_aref(token@) == -1,
                forall|q: int| 1 <= q < d ==> !qdot_at(token@, q),
            decreases n - d,
        {
            if token.get_char(d) == '.' && word_char(token.get_char(d - 1)) && word_char(
                token.get_char(d + 1),
            ) {
                proof {
                    lemma_find_qdot_at(token@, 1, d as int);
                }
                let mut b: usize = d;
                while b > 0 && word_char(token.get_char(b - 1))
                    invariant
                        b <= d < n == token@.len(),
                        forall|x: int| b <= x < d ==> is_word_char(#[trigger] token@[x]),
                    decreases b,
                {
                    b = b - 1;
                }
                proof {
                    lemma_word_run_back_at(token@, d as int, d - b);
                }
                let alias = token.substring_char(b, d);
                let e = scan_word_run(token, d + 1, n);
                let prop = token.substring_char(d + 1, e);
                match alias_map.get(alias) {
                    None => {
                        return Err(err_missing_alias(alias));
                    },
                    Some(id) => {
                        match world.entity(id) {
                            None => {
                                return Err(err_missing_entity(id, alias));
                            },
                            Some(ent) => {
                                match ent.get(prop) {
                                    None => {
                                        return Err(err_missing_property(id, alias, prop));
                                    },
                                    Some(value) => {
                                        return Ok(value.display());
                                    },
                                }
                            },
                        }
                    },
                }
            }
            d = d + 1;
        }
        proof {
            assert forall|q: int| 1 <= q implies !qdot_at(token@, q) by {
                if q >= d {
                    assert(q + 1 >= n);
                }
            }
            lemma_find_qdot_none(token@, 1);
        }
    } else {
        proof {
            lemma_find_qdot_none(token@, 1);
        }
    }
    let mut p: usize = 0;
    while p < n
        invariant
            n == token@.len(),
            find_aref(token@) == -1,
            find_qdot(token@, 1) == -1,
            forall|q: int| 0 <= q < p ==> !is_word_char(#[trigger] token@[q]),
        decreases n - p,
    {
        if word_char(token.get_char(p)) {
            proof {
                lemma_find_word_at(token@, p as int);
            }
            let e = scan_word_run(token, p, n);
            let name = token.substring_char(p, e);
            match world.world_property(name) {
                Some(value) => {
                    return Ok(value.display());
                },
                None => {
                    return Err(err_missing_world(name));
                },
            }
        }
        p = p + 1;
    }
    proof {
        lemma_find_word_none(token@);
    }
    Err(err_malformed(token))
}

proof fn lemma_prepend_assoc(a: Seq<char>, mid: Seq<char>, r: Rendered)
    ensures
        prepend_out(a, prepend_out(mid, r)) == prepend_out(a + mid, r),
{
    match r {
        Rendered::Done(o) => {
            assert(a + (mid + o) =~= (a + mid) + o);
        },
        Rendered::Fail(_) => {
        },
    }
}

impl StoryNode {
    /// Render this beat's directive under a binding and a world.
    pub fn directive(&self, alias_map: &AliasMap, world: &StoryWorld) -> (r: Result<
        String,
        AliasError,
    >)
        ensures
            match r {
                Ok(s) => spec_render(self.directive@, alias_map@, *world) == Rendered::Done(s@),
                Err(e) => spec_render(self.directive@, alias_map@, *world) == Rendered::Fail(
                    e.msg@,
                ),
            },
    {
        let t: &str = self.directive.as_str();
        let n = t.unicode_len();
        let mut out = String::new();
        let mut i: usize = 0;
        proof {
            assert(t@.skip(0) =~= t@);
        }
        while i < n
            invariant
                i <= n == t@.len(),
                t@ == self.directive@,
                spec_render(self.directive@, alias_map@, *world) == prepend_out(
                    out@,
                    spec_render(t@.skip(i as int), alias_map@, *world),
                ),
            decreases n - i,
        {
            let ghost s = t@.skip(i as int);
            let ghost pre_out = out@;
            let c = t.get_char(i);
            proof {
                assert(s[0] == t@[i as int]);
            }
            if c == '{' {
                let mut j: usize = i + 1;
                while j < n && token_char(t.get_char(j))
                    invariant
                        i + 1 <= j <= n == t@.len(),
                        forall|x: int| i + 1 <= x < j ==> is_token_char(#[trigger] t@[x]),
                    decreases n - j,
                {
                    j = j + 1;
                }
                proof {
                    let u = t@.skip(i as int + 1);
                    assert forall|x: int| 0 <= x < j - i - 1 implies is_token_char(
                        #[trigger] u[x],
                    ) by {
                        assert(u[x] == t@[x + i + 1]);
                    }
                    if j < n {
                        assert(u[j - i - 1] == t@[j as int]);
                    }
                    lemma_token_run_at(u, j - i - 1);
                    assert(s.skip(1) =~= u);
                    assert(token_run(s.skip(1)) == j - i - 1);
                }
                let ghost run = (j - i - 1) as int;
                if j > i + 1 && j < n && t.get_char(j) == '}' {
                    let token = t.substring_char(i + 1, j);
                    proof {
                        assert(token@ =~= s.subrange(1, 1 + run));
                        assert(s[1 + run] == t@[j as int]);
                    }
                    match eval_token_ex(token, alias_map, world) {
                        Ok(sub) => {
                            out.append(sub.as_str());
                            proof {
                                assert(s.skip(2 + run) =~= t@.skip(j as int + 1));
                                lemma_prepend_assoc(
                                    pre_out,
                                    sub@,
                                    spec_render(t@.skip(j as int + 1), alias_map@, *world),
                                );
                            }
                            i = j + 1;
                        },
                        Err(e) => {
                            proof {
                                assert(spec_render(s, alias_map@, *world) == Rendered::Fail(
                                    e.msg@,
                                ));
                            }
                            return Err(e);
                        },
                    }
                } else {
                    out.append(t.substring_char(i, i + 1));
                    proof {
                        assert(t@.subrange(i as int, i as int + 1) =~= seq![s[0]]);
                        assert(s.skip(1) =~= t@.skip(i as int + 1));
                        lemma_prepend_assoc(
                            pre_out,
                            seq![s[0]],
                            spec_render(t@.skip(i as int + 1), alias_map@, *world),
                        );
                    }
                    i = i + 1;
                }
            } else {
                out.append(t.substring_char(i, i + 1));
                proof {
                    assert(t@.subrange(i as int, i as int + 1) =~= seq![s[0]]);
                    assert(s.skip(1) =~= t@.skip(i as int + 1));
                    lemma_prepend_assoc(
                        pre_out,
                        seq![s[0]],
                        spec_render(t@.skip(i as int + 1), alias_map@, *world),
                    );
                }
                i = i + 1;
            }
        }
        proof {
            assert(t@.skip(n as int).len() == 0);
            assert(out@ + Seq::<char>::empty() =~= out@);
        }
        Ok(out)
    }
}

} // verus!

verus! {

/// Does a rendering result agree with the rendering specification?
pub open spec fn render_matches(
    t: Seq<char>,
    b: Map<Seq<char>, EntityId>,
    w: StoryWorld,
    r: Result<String, AliasError>,
) -> bool {
    match r {
        Ok(s) => spec_render(t, b, w) == Rendered::Done(s@),
        Err(e) => spec_render(t, b, w) == Rendered::Fail(e.msg@),
    }
}

/// Law: rendering is deterministic.  Two renderings of the same template
/// under the same binding and world agree byte for byte, in success and
/// in failure alike.
pub proof fn law_render_deterministic(
    t: Seq<char>,
    b: Map<Seq<char>, EntityId>,
    w: StoryWorld,
    r1: Result<String, AliasError>,
    r2: Result<String, AliasError>,
)
    requires
        render_matches(t, b, w, r1),
        render_matches(t, b, w, r2),
    ensures
        r1 is Ok <==> r2 is Ok,
        r1 matches Ok(s1) ==> r2 matches Ok(s2) ==> s1@ == s2@,
        r1 matches Err(e1) ==> r2 matches Err(e2) ==> e1.msg@ == e2.msg@,
{
    match (r1, r2) {
        (Ok(s1), Ok(s2)) => {
            assert(Rendered::Done(s1@) == Rendered::Done(s2@));
        },
        (Err(e1), Err(e2)) => {
            assert(Rendered::Fail(e1.msg@) == Rendered::Fail(e2.msg@));
        },
        (Ok(s1), Err(e2)) => {
            assert(Rendered::Done(s1@) == Rendered::Fail(e2.msg@));
        },
        (Err(e1), Ok(s2)) => {
            assert(Rendered::Fail(e1.msg@) == Rendered::Done(s2@));
        },
    }
}

} // verus!
