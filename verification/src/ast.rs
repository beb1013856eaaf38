//! The value model: a tagged union over the JSON value kinds, and its
//! serializer.
//!
//! A number is kept as the literal text the parser consumed (an optional
//! minus sign, an integer part, an optional fraction); turning that text into
//! a machine float is left to callers.  An object is an ordered sequence of
//! key/value pairs with unique keys; inserting an existing key overwrites its
//! value in place.  The serializer renders a value back to text; string
//! bodies are emitted raw, without re-escaping, so a string holding a quote,
//! a backslash or a control character renders to text that does not parse
//! back — a documented gap, stated exactly by the round-trip law in
//! [`crate::laws`].

use vstd::prelude::*;

verus! {

/// The mathematical model of a parsed value.  Text is a character sequence;
/// containers are sequences of models.
pub enum Val {
    Num(Seq<char>),
    Str(Seq<char>),
    Obj(Seq<(Seq<char>, Val)>),
    Arr(Seq<Val>),
    Bool(bool),
    Null,
}

/// A parsed value: number (as its literal text), string, object, array,
/// boolean or null.  The tree is acyclic: each container exclusively owns
/// its children.
#[derive(Debug, PartialEq)]
pub enum Expr {
    Num(String),
    Str(String),
    Obj(Vec<(String, Expr)>),
    Arr(Vec<Expr>),
    Bool(bool),
    Null,
}

impl Expr {
    /// The mathematical model of this value: every owned string becomes its
    /// character sequence, every container the sequence of its children's
    /// models.
    pub open spec fn model(self) -> Val
        decreases self,
    {
        match self {
            Expr::Num(t) => Val::Num(t@),
            Expr::Str(t) => Val::Str(t@),
            Expr::Obj(_) => Val::Obj(model_members(self->Obj_0@, 0)),
            Expr::Arr(_) => Val::Arr(model_elements(self->Arr_0@, 0)),
            Expr::Bool(b) => Val::Bool(b),
            Expr::Null => Val::Null,
        }
    }
}

/// The models of the key/value pairs of `ms` from index `i` on.
pub open spec fn model_members(ms: Seq<(String, Expr)>, i: int) -> Seq<(Seq<char>, Val)>
    decreases ms, ms.len() - i,
{
    if 0 <= i < ms.len() {
        seq![(ms[i].0@, ms[i].1.model())] + model_members(ms, i + 1)
    } else {
        Seq::empty()
    }
}

/// The models of the elements of `es` from index `i` on.
pub open spec fn model_elements(es: Seq<Expr>, i: int) -> Seq<Val>
    decreases es, es.len() - i,
{
    if 0 <= i < es.len() {
        seq![es[i].model()] + model_elements(es, i + 1)
    } else {
        Seq::empty()
    }
}

/// The member models, stated pointwise.
pub proof fn lemma_model_members_view(ms: Seq<(String, Expr)>, i: int)
    requires
        0 <= i <= ms.len(),
    ensures
        model_members(ms, i) =~= Seq::new(
            (ms.len() - i) as nat,
            |k: int| (ms[i + k].0@, ms[i + k].1.model()),
        ),
    decreases ms.len() - i,
{
    if i < ms.len() {
        lemma_model_members_view(ms, i + 1);
    }
}

/// The element models, stated pointwise.
pub proof fn lemma_model_elements_view(es: Seq<Expr>, i: int)
    requires
        0 <= i <= es.len(),
    ensures
        model_elements(es, i) =~= Seq::new((es.len() - i) as nat, |k: int| es[i + k].model()),
    decreases es.len() - i,
{
    if i < es.len() {
        lemma_model_elements_view(es, i + 1);
    }
}

/// The index of the first pair of `ms` whose key is `k`, or -1 if no key of
/// `ms` is `k`.
pub open spec fn key_idx(ms: Seq<(Seq<char>, Val)>, k: Seq<char>) -> int
    decreases ms.len(),
{
    if ms.len() == 0 {
        -1
    } else if ms[0].0 == k {
        0
    } else {
        let r = key_idx(ms.drop_first(), k);
        if r < 0 {
            -1
        } else {
            r + 1
        }
    }
}

/// Insertion with last-value-wins semantics: an existing key keeps its place
/// but takes the new value; a fresh key is appended.
pub open spec fn insert_member(ms: Seq<(Seq<char>, Val)>, k: Seq<char>, v: Val) -> Seq<
    (Seq<char>, Val),
> {
    let i = key_idx(ms, k);
    if i < 0 {
        ms.push((k, v))
    } else {
        ms.update(i, (k, v))
    }
}

/// `key_idx` finds exactly the first occurrence of `k`, and -1 means `k` is
/// absent.
pub proof fn lemma_key_idx(ms: Seq<(Seq<char>, Val)>, k: Seq<char>)
    ensures
        key_idx(ms, k) < 0 ==> forall|j: int| 0 <= j < ms.len() ==> ms[j].0 != k,
        key_idx(ms, k) >= 0 ==> {
            &&& 0 <= key_idx(ms, k) < ms.len()
            &&& ms[key_idx(ms, k)].0 == k
            &&& forall|j: int| 0 <= j < key_idx(ms, k) ==> ms[j].0 != k
        },
    decreases ms.len(),
{
    if ms.len() > 0 && ms[0].0 != k {
        lemma_key_idx(ms.drop_first(), k);
        assert(forall|j: int| 1 <= j < ms.len() ==> ms.drop_first()[j - 1] == ms[j]);
    }
}

/// The rendering of a value: number text as it stands; a string wrapped in
/// quotes with its body raw; `{`/`}` and `[`/`]` around comma-joined members
/// and elements; `true`, `false`, `null`.
pub open spec fn render_val(v: Val) -> Seq<char>
    decreases v, 1int,
{
    match v {
        Val::Num(t) => t,
        Val::Str(t) => seq!['"'] + t + seq!['"'],
        Val::Obj(ms) => seq!['{'] + render_members(ms, 0) + seq!['}'],
        Val::Arr(es) => seq!['['] + render_elements(es, 0) + seq![']'],
        Val::Bool(b) => if b {
            seq!['t', 'r', 'u', 'e']
        } else {
            seq!['f', 'a', 'l', 's', 'e']
        },
        Val::Null => seq!['n', 'u', 'l', 'l'],
    }
}

/// The members of an object from index `i` on, rendered as `"key":value`
/// pairs joined by commas.
pub open spec fn render_members(ms: Seq<(Seq<char>, Val)>, i: int) -> Seq<char>
    decreases ms, ms.len() - i,
{
    if 0 <= i < ms.len() {
        let one = seq!['"'] + ms[i].0 + seq!['"', ':'] + render_val(ms[i].1);
        if i + 1 < ms.len() {
            one + seq![','] + render_members(ms, i + 1)
        } else {
            one
        }
    } else {
        Seq::empty()
    }
}

/// The elements of an array from index `i` on, joined by commas.
pub open spec fn render_elements(es: Seq<Val>, i: int) -> Seq<char>
    decreases es, es.len() - i,
{
    if 0 <= i < es.len() {
        if i + 1 < es.len() {
            render_val(es[i]) + seq![','] + render_elements(es, i + 1)
        } else {
            render_val(es[i])
        }
    } else {
        Seq::empty()
    }
}

/// The first `i` members, each rendered and followed by a comma.
pub open spec fn members_prefix(ms: Seq<(Seq<char>, Val)>, i: int) -> Seq<char>
    decreases ms, i,
{
    if i <= 0 {
        Seq::empty()
    } else {
        members_prefix(ms, i - 1) + (seq!['"'] + ms[i - 1].0 + seq!['"', ':'] + render_val(
            ms[i - 1].1,
        )) + seq![',']
    }
}

/// The first `i` elements, each rendered and followed by a comma.
pub open spec fn elements_prefix(es: Seq<Val>, i: int) -> Seq<char>
    decreases es, i,
{
    if i <= 0 {
        Seq::empty()
    } else {
        elements_prefix(es, i - 1) + render_val(es[i - 1]) + seq![',']
    }
}

/// The comma-terminated prefix before member `i`, followed by the members
/// from `i` on, is the full joined rendering.
proof fn lemma_members_prefix(ms: Seq<(Seq<char>, Val)>, i: int)
    requires
        0 <= i < ms.len(),
    ensures
        members_prefix(ms, i) + render_members(ms, i) =~= render_members(ms, 0),
    decreases i,
{
    if i > 0 {
        lemma_members_prefix(ms, i - 1);
    }
}

proof fn lemma_elements_prefix(es: Seq<Val>, i: int)
    requires
        0 <= i < es.len(),
    ensures
        elements_prefix(es, i) + render_elements(es, i) =~= render_elements(es, 0),
    decreases i,
{
    if i > 0 {
        lemma_elements_prefix(es, i - 1);
    }
}

/// Pushing a pair onto the members pushes its model onto the member models.
pub proof fn lemma_model_members_push(ms: Seq<(String, Expr)>, k: String, v: Expr)
    ensures
        model_members(ms.push((k, v)), 0) =~= model_members(ms, 0).push((k@, v.model())),
{
    lemma_model_members_view(ms, 0);
    lemma_model_members_view(ms.push((k, v)), 0);
    assert forall|j: int| 0 <= j < ms.len() + 1 implies model_members(ms.push((k, v)), 0)[j]
        == model_members(ms, 0).push((k@, v.model()))[j] by {
        if j < ms.len() {
            assert(ms.push((k, v))[j] == ms[j]);
        } else {
            assert(ms.push((k, v))[j] == (k, v));
        }
    }
}

/// Updating a pair in place updates its model in place.
pub proof fn lemma_model_members_update(ms: Seq<(String, Expr)>, i: int, k: String, v: Expr)
    requires
        0 <= i < ms.len(),
    ensures
        model_members(ms.update(i, (k, v)), 0) =~= model_members(ms, 0).update(
            i,
            (k@, v.model()),
        ),
{
    lemma_model_members_view(ms, 0);
    lemma_model_members_view(ms.update(i, (k, v)), 0);
    assert forall|j: int| 0 <= j < ms.len() implies model_members(ms.update(i, (k, v)), 0)[j]
        == model_members(ms, 0).update(i, (k@, v.model()))[j] by {
        if j != i {
            assert(ms.update(i, (k, v))[j] == ms[j]);
        } else {
            assert(ms.update(i, (k, v))[j] == (k, v));
        }
    }
}

/// Pushing an element pushes its model.
pub proof fn lemma_model_elements_push(es: Seq<Expr>, e: Expr)
    ensures
        model_elements(es.push(e), 0) =~= model_elements(es, 0).push(e.model()),
{
    lemma_model_elements_view(es, 0);
    lemma_model_elements_view(es.push(e), 0);
    assert forall|j: int| 0 <= j < es.len() + 1 implies model_elements(es.push(e), 0)[j]
        == model_elements(es, 0).push(e.model())[j] by {
        if j < es.len() {
            assert(es.push(e)[j] == es[j]);
        } else {
            assert(es.push(e)[j] == e);
        }
    }
}

/// Relies on collecting a `char` iterator into a `String`: the result is
/// exactly the characters of the vector, in order.
#[verifier::external_body]
pub(crate) fn string_from_chars(v: &Vec<char>) -> (s: String)
    ensures
        s@ == v@,
{
    v.iter().collect()
}

/// Appends the rendering of `e` to `out`.
fn render_chars(e: &Expr, out: &mut Vec<char>)
    ensures
        final(out)@ == old(out)@ + render_val(e.model()),
    decreases *e,
{
    match e {
        Expr::Num(t) => {
            let mut cs = crate::cursor::chars_of(t);
            out.append(&mut cs);
        },
        Expr::Str(t) => {
            out.push('"');
            let mut cs = crate::cursor::chars_of(t);
            out.append(&mut cs);
            out.push('"');
            proof {
                assert(out@ =~= old(out)@ + render_val(e.model()));
            }
        },
        Expr::Obj(ps) => {
            out.push('{');
            let ghost m = e.model()->Obj_0;
            proof {
                lemma_model_members_view(ps@, 0);
                assert(m =~= Seq::new(ps@.len(), |k: int| (ps@[k].0@, ps@[k].1.model())));
            }
            if ps.len() > 0 {
                let mut i: usize = 0;
                loop
                    invariant_except_break
                        *e is Obj,
                        e->Obj_0@ == ps@,
                        0 <= i < ps@.len(),
                        m == Seq::new(ps@.len(), |k: int| (ps@[k].0@, ps@[k].1.model())),
                        m.len() == ps@.len(),
                        ps@.len() <= usize::MAX,
                        out@ == old(out)@ + seq!['{'] + members_prefix(m, i as int),
                    ensures
                        out@ == old(out)@ + seq!['{'] + render_members(m, 0),
                    decreases ps@.len() - i,
                {
                    out.push('"');
                    let mut ks = crate::cursor::chars_of(&ps[i].0);
                    out.append(&mut ks);
                    out.push('"');
                    out.push(':');
                    proof {
                        assert(decreases_to!(*e => e->Obj_0@[i as int].1));
                        assert(e->Obj_0@ == ps@);
                    }
                    render_chars(&ps[i].1, out);
                    proof {
                        assert(m[i as int] == (ps@[i as int].0@, ps@[i as int].1.model()));
                    }
                    if i + 1 < ps.len() {
                        out.push(',');
                        proof {
                            assert(out@ =~= old(out)@ + seq!['{'] + members_prefix(
                                m,
                                i as int + 1,
                            ));
                        }
                        i = i + 1;
                    } else {
                        proof {
                            lemma_members_prefix(m, i as int);
                            assert(render_members(m, i as int) =~= seq!['"'] + m[i as int].0
                                + seq!['"', ':'] + render_val(m[i as int].1));
                            assert(out@ =~= old(out)@ + seq!['{'] + render_members(m, 0));
                        }
                        break ;
                    }
                }
            }
            out.push('}');
            proof {
                if ps@.len() == 0 {
                    assert(render_members(m, 0) =~= Seq::<char>::empty());
                }
                assert(out@ =~= old(out)@ + render_val(e.model()));
            }
        },
        Expr::Arr(es) => {
            out.push('[');
            let ghost m = e.model()->Arr_0;
            proof {
                lemma_model_elements_view(es@, 0);
                assert(m =~= Seq::new(es@.len(), |k: int| es@[k].model()));
            }
            if es.len() > 0 {
                let mut i: usize = 0;
                loop
                    invariant_except_break
                        *e is Arr,
                        e->Arr_0@ == es@,
                        0 <= i < es@.len(),
                        m == Seq::new(es@.len(), |k: int| es@[k].model()),
                        m.len() == es@.len(),
                        es@.len() <= usize::MAX,
                        out@ == old(out)@ + seq!['['] + elements_prefix(m, i as int),
                    ensures
                        out@ == old(out)@ + seq!['['] + render_elements(m, 0),
                    decreases es@.len() - i,
                {
                    proof {
                        assert(decreases_to!(*e => e->Arr_0@[i as int]));
                        assert(e->Arr_0@ == es@);
                    }
                    render_chars(&es[i], out);
                    proof {
                        assert(m[i as int] == es@[i as int].model());
                    }
                    if i + 1 < es.len() {
                        out.push(',');
                        proof {
                            assert(out@ =~= old(out)@ + seq!['['] + elements_prefix(
                                m,
                                i as int + 1,
                            ));
                        }
                        i = i + 1;
                    } else {
                        proof {
                            lemma_elements_prefix(m, i as int);
                            assert(render_elements(m, i as int) =~= render_val(m[i as int]));
                            assert(out@ =~= old(out)@ + seq!['['] + render_elements(m, 0));
                        }
                        break ;
                    }
                }
            }
            out.push(']');
            proof {
                if es@.len() == 0 {
                    assert(render_elements(m, 0) =~= Seq::<char>::empty());
                }
                assert(out@ =~= old(out)@ + render_val(e.model()));
            }
        },
        Expr::Bool(b) => {
            if *b {
                out.push('t');
                out.push('r');
                out.push('u');
                out.push('e');
            } else {
                out.push('f');
                out.push('a');
                out.push('l');
                out.push('s');
                out.push('e');
            }
            proof {
                assert(out@ =~= old(out)@ + render_val(e.model()));
            }
        },
        Expr::Null => {
            out.push('n');
            out.push('u');
            out.push('l');
            out.push('l');
            proof {
                assert(out@ =~= old(out)@ + render_val(e.model()));
            }
        },
    }
}

impl Expr {
    /// Renders this value to text.
    pub fn to_text(&self) -> (s: String)
        ensures
            s@ == render_val(self.model()),
    {
        let mut out: Vec<char> = Vec::new();
        render_chars(self, &mut out);
        string_from_chars(&out)
    }
}

} // verus!
