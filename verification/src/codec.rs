//! Structured export of a tree, and the proof that re-importing it gives the
//! same tree back.
//!
//! `TreeEntry::to_json` renders a tree as a single-line structured document
//! with keys `name`, `isDirectory` and `children`. A file never carries a
//! `children` key; a directory always does, possibly with an empty sequence,
//! so the absent-vs-empty distinction survives the export. Quotes and
//! backslashes inside names are escaped. `spec_parse_entry` is the matching
//! reader, and `lemma_export_roundtrip` shows that it reconstructs the
//! exported tree exactly.

use vstd::prelude::*;
use crate::fs::{TreeEntry, TreeModel};

verus! {

/// The opening piece of every entry, up to the first character of the name.
pub open spec fn lit_name() -> Seq<char> {
    seq!['{', '"', 'n', 'a', 'm', 'e', '"', ':', ' ', '"']
}

/// The closing quote of the name.
pub open spec fn lit_quote() -> Seq<char> {
    seq!['"']
}

/// The tail of a file entry, after the name's closing quote.
pub open spec fn lit_false_tail() -> Seq<char> {
    seq![',', ' ', '"', 'i', 's', 'D', 'i', 'r', 'e', 'c', 't', 'o', 'r', 'y', '"', ':', ' ', 'f', 'a', 'l', 's', 'e', '}']
}

/// The piece of a directory entry between the name's closing quote and its
/// children.
pub open spec fn lit_true_tail() -> Seq<char> {
    seq![',', ' ', '"', 'i', 's', 'D', 'i', 'r', 'e', 'c', 't', 'o', 'r', 'y', '"', ':', ' ', 't', 'r', 'u', 'e', ',', ' ', '"', 'c', 'h', 'i', 'l', 'd', 'r', 'e', 'n', '"', ':', ' ', '[']
}

/// The separator between two children.
pub open spec fn lit_sep() -> Seq<char> {
    seq![',', ' ']
}

/// The closing piece of a directory entry.
pub open spec fn lit_end() -> Seq<char> {
    seq![']', '}']
}

/// How one name character is written: quotes and backslashes get a leading
/// backslash, everything else stands as it is.
pub open spec fn esc_char(c: char) -> Seq<char> {
    if c == '\\' || c == '"' {
        seq!['\\', c]
    } else {
        seq![c]
    }
}

/// How a whole name is written.
pub open spec fn esc(s: Seq<char>) -> Seq<char>
    decreases s.len(),
{
    if s.len() <= 0 {
        Seq::empty()
    } else {
        esc_char(s[0]) + esc(s.skip(1))
    }
}

/// Escaping appends character by character.
pub proof fn lemma_esc_snoc(s: Seq<char>, c: char)
    ensures
        esc(s.push(c)) == esc(s) + esc_char(c),
    decreases s.len(),
{
    if s.len() == 0 {
        assert(s.push(c)[0] == c);
        assert(s.push(c).skip(1) =~= Seq::<char>::empty());
        assert(esc(Seq::<char>::empty()) == Seq::<char>::empty());
        assert(esc(s.push(c)) == esc_char(c) + esc(Seq::<char>::empty()));
        assert(esc(s.push(c)) =~= esc(s) + esc_char(c));
    } else {
        assert(s.push(c)[0] == s[0]);
        assert(s.push(c).skip(1) =~= s.skip(1).push(c));
        lemma_esc_snoc(s.skip(1), c);
        assert(esc(s.push(c)) =~= esc(s) + esc_char(c));
    }
}

/// The document written for the tree `t`.
pub open spec fn spec_emit(t: TreeModel) -> Seq<char>
    decreases t, 0int,
{
    match t {
        TreeModel::File { name } => lit_name() + esc(name) + lit_quote() + lit_false_tail(),
        TreeModel::Dir { name, children } => lit_name() + esc(name) + lit_quote()
            + lit_true_tail() + spec_emit_list(children, 0) + lit_end(),
    }
}

/// The documents of the children from index `i` on, separated by `lit_sep`.
pub open spec fn spec_emit_list(cs: Seq<TreeModel>, i: int) -> Seq<char>
    decreases cs, 2 * (cs.len() - i) + 1,
{
    if i < 0 || i >= cs.len() {
        Seq::empty()
    } else {
        spec_emit(cs[i]) + spec_emit_rest(cs, i + 1)
    }
}

/// The documents of the children from index `i` on, each preceded by the
/// separator.
pub open spec fn spec_emit_rest(cs: Seq<TreeModel>, i: int) -> Seq<char>
    decreases cs, 2 * (cs.len() - i) + 2,
{
    if i < 0 || i >= cs.len() {
        Seq::empty()
    } else {
        lit_sep() + spec_emit(cs[i]) + spec_emit_rest(cs, i + 1)
    }
}

/// Whether `lit` stands letter for letter at position `pos` of `s`.
pub open spec fn spec_match_at(s: Seq<char>, pos: int, lit: Seq<char>) -> bool {
    0 <= pos && pos + lit.len() <= s.len() && s.subrange(pos, pos + lit.len()) == lit
}

/// A match of a concatenation splits into matches of its parts.
pub proof fn lemma_match_split(s: Seq<char>, pos: int, a: Seq<char>, b: Seq<char>)
    requires
        spec_match_at(s, pos, a + b),
    ensures
        spec_match_at(s, pos, a),
        spec_match_at(s, pos + a.len(), b),
{
    assert(s.subrange(pos, pos + a.len()) =~= a) by {
        assert forall|k: int| 0 <= k < a.len() implies s.subrange(pos, pos + a.len())[k]
            == a[k] by {
            assert(s[pos + k] == (a + b)[k]);
        }
    }
    assert(s.subrange(pos + a.len(), pos + a.len() + b.len()) =~= b) by {
        assert forall|k: int|
            0 <= k < b.len() implies s.subrange(pos + a.len(), pos + a.len() + b.len())[k]
            == b[k] by {
            assert(s[pos + a.len() + k] == (a + b)[a.len() + k]);
        }
    }
}

/// Reads a name up to its closing quote, undoing the escapes.
pub open spec fn spec_parse_string(s: Seq<char>, pos: int) -> Option<(Seq<char>, int)>
    decreases s.len() - pos,
{
    if pos < 0 || pos >= s.len() {
        Option::None
    } else if s[pos] == '"' {
        Option::Some((Seq::empty(), pos + 1))
    } else if s[pos] == '\\' {
        if pos + 2 <= s.len() && (s[pos + 1] == '"' || s[pos + 1] == '\\') {
            match spec_parse_string(s, pos + 2) {
                Option::None => Option::None,
                Option::Some((nm, q)) => Option::Some((seq![s[pos + 1]] + nm, q)),
            }
        } else {
            Option::None
        }
    } else {
        match spec_parse_string(s, pos + 1) {
            Option::None => Option::None,
            Option::Some((nm, q)) => Option::Some((seq![s[pos]] + nm, q)),
        }
    }
}

/// Reads one entry starting at `pos`.
pub open spec fn spec_parse_entry(s: Seq<char>, pos: int) -> Option<(TreeModel, int)>
    decreases s.len() - pos, 0int,
{
    if !spec_match_at(s, pos, lit_name()) {
        Option::None
    } else {
        match spec_parse_string(s, pos + lit_name().len()) {
            Option::None => Option::None,
            Option::Some((name, p1)) => if p1 <= pos || p1 > s.len() {
                Option::None
            } else if spec_match_at(s, p1, lit_false_tail()) {
                Option::Some((TreeModel::File { name }, p1 + lit_false_tail().len()))
            } else if spec_match_at(s, p1, lit_true_tail()) {
                match spec_parse_list(s, p1 + lit_true_tail().len()) {
                    Option::None => Option::None,
                    Option::Some((children, p3)) => if spec_match_at(s, p3, lit_end()) {
                        Option::Some((TreeModel::Dir { name, children }, p3 + lit_end().len()))
                    } else {
                        Option::None
                    },
                }
            } else {
                Option::None
            },
        }
    }
}

/// Reads a children sequence; stops (without consuming it) at the closing
/// bracket.
pub open spec fn spec_parse_list(s: Seq<char>, pos: int) -> Option<(Seq<TreeModel>, int)>
    decreases s.len() - pos, 1int,
{
    if pos < 0 || pos >= s.len() {
        Option::None
    } else if s[pos] == ']' {
        Option::Some((Seq::empty(), pos))
    } else {
        match spec_parse_entry(s, pos) {
            Option::None => Option::None,
            Option::Some((t, p1)) => if p1 <= pos || p1 > s.len() {
                Option::None
            } else {
                match spec_parse_list_rest(s, p1) {
                    Option::None => Option::None,
                    Option::Some((ts, p2)) => Option::Some((seq![t] + ts, p2)),
                }
            },
        }
    }
}

/// Reads the remaining children after the first, each preceded by the
/// separator; stops (without consuming it) at the closing bracket.
pub open spec fn spec_parse_list_rest(s: Seq<char>, pos: int) -> Option<(Seq<TreeModel>, int)>
    decreases s.len() - pos, 2int,
{
    if pos < 0 || pos >= s.len() {
        Option::None
    } else if s[pos] == ']' {
        Option::Some((Seq::empty(), pos))
    } else if spec_match_at(s, pos, lit_sep()) {
        match spec_parse_entry(s, pos + lit_sep().len()) {
            Option::None => Option::None,
            Option::Some((t, p1)) => if p1 <= pos || p1 > s.len() {
                Option::None
            } else {
                match spec_parse_list_rest(s, p1) {
                    Option::None => Option::None,
                    Option::Some((ts, p2)) => Option::Some((seq![t] + ts, p2)),
                }
            },
        }
    } else {
        Option::None
    }
}

/// Every entry document opens with a brace, so it is never mistaken for the
/// end of a children sequence.
pub proof fn lemma_emit_head(t: TreeModel)
    ensures
        spec_emit(t).len() >= lit_name().len(),
        spec_emit(t)[0] == '{',
{
}

/// Reading an escaped name back yields the original name.
pub proof fn lemma_parse_string_emit(s: Seq<char>, pos: int, name: Seq<char>)
    requires
        spec_match_at(s, pos, esc(name) + lit_quote()),
    ensures
        spec_parse_string(s, pos) == Option::Some((name, pos + esc(name).len() + 1)),
    decreases name.len(),
{
    if name.len() == 0 {
        assert(s[pos] == (esc(name) + lit_quote())[0]);
    } else {
        let c = name[0];
        let rest = name.skip(1);
        assert(esc(name) == esc_char(c) + esc(rest));
        if c == '\\' || c == '"' {
            assert(esc(name) + lit_quote() =~= seq!['\\', c] + (esc(rest) + lit_quote()));
            lemma_match_split(s, pos, seq!['\\', c], esc(rest) + lit_quote());
            assert(s[pos] == s.subrange(pos, pos + 2)[0]);
            assert(s[pos + 1] == s.subrange(pos, pos + 2)[1]);
            lemma_parse_string_emit(s, pos + 2, rest);
            assert(seq![s[pos + 1]] + rest =~= name);
        } else {
            assert(esc(name) + lit_quote() =~= seq![c] + (esc(rest) + lit_quote()));
            lemma_match_split(s, pos, seq![c], esc(rest) + lit_quote());
            assert(s[pos] == s.subrange(pos, pos + 1)[0]);
            lemma_parse_string_emit(s, pos + 1, rest);
            assert(seq![s[pos]] + rest =~= name);
        }
    }
}

/// Reading an emitted entry back yields exactly that entry, ending right
/// after its document.
pub proof fn lemma_parse_emit(s: Seq<char>, pos: int, t: TreeModel)
    requires
        spec_match_at(s, pos, spec_emit(t)),
    ensures
        spec_parse_entry(s, pos) == Option::Some((t, pos + spec_emit(t).len())),
    decreases t, 0int,
{
    match t {
        TreeModel::File { name } => {
            let e = spec_emit(t);
            assert(e =~= lit_name() + ((esc(name) + lit_quote()) + lit_false_tail()));
            lemma_match_split(s, pos, lit_name(), (esc(name) + lit_quote()) + lit_false_tail());
            lemma_match_split(
                s,
                pos + lit_name().len(),
                esc(name) + lit_quote(),
                lit_false_tail(),
            );
            lemma_parse_string_emit(s, pos + lit_name().len(), name);
        },
        TreeModel::Dir { name, children } => {
            let e = spec_emit(t);
            let el = spec_emit_list(children, 0);
            assert(e =~= lit_name() + ((esc(name) + lit_quote()) + (lit_true_tail() + (el
                + lit_end()))));
            lemma_match_split(
                s,
                pos,
                lit_name(),
                (esc(name) + lit_quote()) + (lit_true_tail() + (el + lit_end())),
            );
            lemma_match_split(
                s,
                pos + lit_name().len(),
                esc(name) + lit_quote(),
                lit_true_tail() + (el + lit_end()),
            );
            lemma_parse_string_emit(s, pos + lit_name().len(), name);
            let p1 = pos + lit_name().len() + esc(name).len() + 1;
            lemma_match_split(s, p1, lit_true_tail(), el + lit_end());
            assert(!spec_match_at(s, p1, lit_false_tail())) by {
                if spec_match_at(s, p1, lit_false_tail()) {
                    assert(s[p1 + 17] == s.subrange(p1, p1 + lit_false_tail().len())[17]);
                    assert(s[p1 + 17] == s.subrange(p1, p1 + lit_true_tail().len())[17]);
                }
            }
            let p2 = p1 + lit_true_tail().len();
            lemma_parse_emit_list(s, p2, children, 0);
            assert(children.skip(0) =~= children);
            let p3 = p2 + el.len();
            lemma_match_split(s, p2, el, lit_end());
        },
    }
}

/// Reading the children documents from index `i` on, followed by the closing
/// pieces, yields exactly those children.
proof fn lemma_parse_emit_list(s: Seq<char>, pos: int, cs: Seq<TreeModel>, i: int)
    requires
        0 <= i <= cs.len(),
        spec_match_at(s, pos, spec_emit_list(cs, i) + lit_end()),
    ensures
        spec_parse_list(s, pos) == Option::Some((cs.skip(i), pos + spec_emit_list(cs, i).len())),
    decreases cs, 2 * (cs.len() - i) + 1,
{
    if i == cs.len() {
        assert(spec_emit_list(cs, i) =~= Seq::<char>::empty());
        assert(spec_emit_list(cs, i) + lit_end() =~= lit_end());
        assert(s[pos] == s.subrange(pos, pos + lit_end().len())[0]);
        assert(cs.skip(i) =~= Seq::<TreeModel>::empty());
    } else {
        let e = spec_emit(cs[i]);
        let r = spec_emit_rest(cs, i + 1);
        assert(spec_emit_list(cs, i) + lit_end() =~= e + (r + lit_end()));
        lemma_match_split(s, pos, e, r + lit_end());
        lemma_emit_head(cs[i]);
        assert(s[pos] == s.subrange(pos, pos + e.len())[0]);
        lemma_parse_emit(s, pos, cs[i]);
        let p1 = pos + e.len();
        lemma_parse_emit_rest(s, p1, cs, i + 1);
        assert(seq![cs[i]] + cs.skip(i + 1) =~= cs.skip(i));
    }
}

/// Reading separator-prefixed children documents from index `i` on, followed
/// by the closing pieces, yields exactly those children.
proof fn lemma_parse_emit_rest(s: Seq<char>, pos: int, cs: Seq<TreeModel>, i: int)
    requires
        0 <= i <= cs.len(),
        spec_match_at(s, pos, spec_emit_rest(cs, i) + lit_end()),
    ensures
        spec_parse_list_rest(s, pos) == Option::Some(
            (cs.skip(i), pos + spec_emit_rest(cs, i).len()),
        ),
    decreases cs, 2 * (cs.len() - i) + 2,
{
    if i == cs.len() {
        assert(spec_emit_rest(cs, i) =~= Seq::<char>::empty());
        assert(spec_emit_rest(cs, i) + lit_end() =~= lit_end());
        assert(s[pos] == s.subrange(pos, pos + lit_end().len())[0]);
        assert(cs.skip(i) =~= Seq::<TreeModel>::empty());
    } else {
        let e = spec_emit(cs[i]);
        let r = spec_emit_rest(cs, i + 1);
        assert(spec_emit_rest(cs, i) + lit_end() =~= lit_sep() + (e + (r + lit_end())));
        lemma_match_split(s, pos, lit_sep(), e + (r + lit_end()));
        let p0 = pos + lit_sep().len();
        lemma_match_split(s, p0, e, r + lit_end());
        assert(s[pos] == s.subrange(pos, pos + lit_sep().len())[0]);
        lemma_emit_head(cs[i]);
        lemma_parse_emit(s, p0, cs[i]);
        let p1 = p0 + e.len();
        lemma_parse_emit_rest(s, p1, cs, i + 1);
        assert(seq![cs[i]] + cs.skip(i + 1) =~= cs.skip(i));
    }
}

/// The export round trip: reading an exported document back reconstructs the
/// exported tree exactly — same names, same kinds, same nesting, same
/// absent-vs-empty children — and consumes the whole document.
pub proof fn lemma_export_roundtrip(t: TreeModel)
    ensures
        spec_parse_entry(spec_emit(t), 0) == Option::Some((t, spec_emit(t).len() as int)),
{
    let s = spec_emit(t);
    assert(s.subrange(0, s.len() as int) =~= s);
    lemma_parse_emit(s, 0, t);
}

impl TreeEntry {
    /// Renders this tree as its structured export document.
    pub fn to_json(&self) -> (r: String)
        ensures
            r@ == spec_emit(self.model()),
    {
        let mut out = String::new();
        emit_entry(&mut out, self);
        proof {
            assert(Seq::<char>::empty() + spec_emit(self.model()) =~= spec_emit(self.model()));
        }
        out
    }
}

/// Appends the document of `t` to `out`.
fn emit_entry(out: &mut String, t: &TreeEntry)
    ensures
        final(out)@ == old(out)@ + spec_emit(t.model()),
    decreases *t, 0int,
{
    let l1 = "{\"name\": \"";
    proof {
        reveal_strlit("{\"name\": \"");
        assert(l1@ =~= lit_name());
    }
    out.append(l1);
    emit_name(out, &t.name);
    match &t.children {
        Option::None => {
            let l2 = "\", \"isDirectory\": false}";
            proof {
                reveal_strlit("\", \"isDirectory\": false}");
                assert(l2@ =~= lit_quote() + lit_false_tail());
            }
            out.append(l2);
            proof {
                assert(out@ =~= old(out)@ + spec_emit(t.model()));
            }
        },
        Option::Some(kids) => {
            proof {
                assert(decreases_to!(*t => *kids));
                assert(decreases_to!(*kids => kids@));
                crate::fs::lemma_entry_model_list(kids@, kids@.len() as int);
            }
            let l2 = "\", \"isDirectory\": true, \"children\": [";
            proof {
                reveal_strlit("\", \"isDirectory\": true, \"children\": [");
                assert(l2@ =~= lit_quote() + lit_true_tail());
            }
            out.append(l2);
            emit_list(out, kids, 0);
            let l3 = "]}";
            proof {
                reveal_strlit("]}");
                assert(l3@ =~= lit_end());
            }
            out.append(l3);
            proof {
                assert(out@ =~= old(out)@ + spec_emit(t.model()));
            }
        },
    }
}

/// Appends the documents of the children from index `j` on, separated by the
/// separator, to `out`.
fn emit_list(out: &mut String, kids: &Vec<TreeEntry>, j: usize)
    requires
        j <= kids@.len(),
    ensures
        final(out)@ == old(out)@ + spec_emit_list(
            TreeEntry::model_list(kids@, kids@.len() as int),
            j as int,
        ),
    decreases kids@, kids@.len() - j,
{
    let ghost ms = TreeEntry::model_list(kids@, kids@.len() as int);
    proof {
        crate::fs::lemma_entry_model_list(kids@, kids@.len() as int);
    }
    if j < kids.len() {
        emit_entry(out, &kids[j]);
        if j + 1 < kids.len() {
            let sep = ", ";
            proof {
                reveal_strlit(", ");
                assert(sep@ =~= lit_sep());
            }
            out.append(sep);
            emit_list(out, kids, j + 1);
            proof {
                assert(spec_emit_rest(ms, j + 1) =~= lit_sep() + spec_emit(ms[j + 1])
                    + spec_emit_rest(ms, j + 2));
                assert(spec_emit_list(ms, j + 1) =~= spec_emit(ms[j + 1]) + spec_emit_rest(
                    ms,
                    j + 2,
                ));
                assert(out@ =~= old(out)@ + spec_emit_list(ms, j as int));
            }
        } else {
            proof {
                assert(spec_emit_rest(ms, j + 1) =~= Seq::<char>::empty());
                assert(out@ =~= old(out)@ + spec_emit_list(ms, j as int));
            }
        }
    } else {
        proof {
            assert(out@ =~= old(out)@ + spec_emit_list(ms, j as int));
        }
    }
}

impl TreeEntry {
    /// Parses an export document back into a tree: succeeds exactly when the
    /// whole input is one export document, and then returns its tree.
    pub fn from_json(s: &str) -> (r: Option<TreeEntry>)
        ensures
            ({
                let sr = spec_parse_entry(s@, 0);
                match r {
                    Option::Some(t) => sr == Option::Some((t.model(), s@.len() as int))
                        && t.wf(),
                    Option::None => !(sr matches Some((m, q)) && q == s@.len()),
                }
            }),
    {
        match parse_entry_at(s, 0) {
            Option::None => Option::None,
            Option::Some((t, q)) => if q == s.unicode_len() {
                Option::Some(t)
            } else {
                Option::None
            },
        }
    }
}

/// Compares the characters of `s` from `pos` on against `lit`.
fn match_lit(s: &str, pos: usize, lit: &str) -> (r: bool)
    requires
        pos <= s@.len(),
    ensures
        r == spec_match_at(s@, pos as int, lit@),
{
    let n = s.unicode_len();
    let m = lit.unicode_len();
    if m > n - pos {
        return false;
    }
    let mut k: usize = 0;
    while k < m
        invariant
            pos + m <= n,
            n == s@.len(),
            m == lit@.len(),
            k <= m,
            forall|x: int| 0 <= x < k ==> s@[pos + x] == lit@[x],
        decreases m - k,
    {
        if s.get_char(pos + k) != lit.get_char(k) {
            proof {
                if spec_match_at(s@, pos as int, lit@) {
                    assert(s@.subrange(pos as int, pos + lit@.len())[k as int] == lit@[k as int]);
                }
            }
            return false;
        }
        k += 1;
    }
    proof {
        assert(s@.subrange(pos as int, pos + lit@.len()) =~= lit@);
    }
    true
}

/// Reads a name up to its closing quote, undoing the escapes.
fn parse_string_at(s: &str, pos: usize) -> (r: Option<(String, usize)>)
    requires
        pos <= s@.len(),
    ensures
        ({
            let sr = spec_parse_string(s@, pos as int);
            match r {
                Option::Some((nm, q)) => sr == Option::Some((nm@, q as int)) && q <= s@.len(),
                Option::None => sr is None,
            }
        }),
{
    let n = s.unicode_len();
    let mut i: usize = pos;
    let mut name = String::new();
    loop
        invariant
            pos <= i <= n,
            n == s@.len(),
            spec_parse_string(s@, pos as int) == (match spec_parse_string(s@, i as int) {
                Option::None => Option::None::<(Seq<char>, int)>,
                Option::Some((nm, q)) => Option::Some((name@ + nm, q)),
            }),
        decreases n - i,
    {
        if i >= n {
            return Option::None;
        }
        let c = s.get_char(i);
        if c == '"' {
            proof {
                assert(name@ + Seq::<char>::empty() =~= name@);
            }
            return Option::Some((name, i + 1));
        }
        if c == '\\' {
            if i + 1 < n {
                let c2 = s.get_char(i + 1);
                if c2 == '"' || c2 == '\\' {
                    let ghost prev = name@;
                    name.append(s.substring_char(i + 1, i + 2));
                    proof {
                        assert(name@ =~= prev + seq![s@[i + 1]]);
                        let sr = spec_parse_string(s@, i + 2);
                        match sr {
                            Option::None => {},
                            Option::Some((nm, q)) => {
                                assert(prev + (seq![s@[i + 1]] + nm) =~= name@ + nm);
                            },
                        }
                    }
                    i += 2;
                } else {
                    return Option::None;
                }
            } else {
                return Option::None;
            }
        } else {
            let ghost prev = name@;
            name.append(s.substring_char(i, i + 1));
            proof {
                assert(name@ =~= prev + seq![s@[i as int]]);
                let sr = spec_parse_string(s@, i + 1);
                match sr {
                    Option::None => {},
                    Option::Some((nm, q)) => {
                        assert(prev + (seq![s@[i as int]] + nm) =~= name@ + nm);
                    },
                }
            }
            i += 1;
        }
    }
}

/// Reads one entry starting at `pos`.
fn parse_entry_at(s: &str, pos: usize) -> (r: Option<(TreeEntry, usize)>)
    requires
        pos <= s@.len(),
    ensures
        ({
            let sr = spec_parse_entry(s@, pos as int);
            match r {
                Option::Some((t, q)) => sr == Option::Some((t.model(), q as int)) && pos < q
                    <= s@.len() && t.wf(),
                Option::None => sr is None,
            }
        }),
    decreases s@.len() - pos, 0int,
{
    // Fixes the character length of `s` as a machine integer, so that the
    // position arithmetic below is known not to overflow.
    let n = s.unicode_len();
    if pos >= n {
        return Option::None;
    }
    let l1 = "{\"name\": \"";
    proof {
        reveal_strlit("{\"name\": \"");
        assert(l1@ =~= lit_name());
    }
    if !match_lit(s, pos, l1) {
        return Option::None;
    }
    let (name, p1) = match parse_string_at(s, pos + 10) {
        Option::None => {
            return Option::None;
        },
        Option::Some(x) => x,
    };
    if p1 <= pos {
        return Option::None;
    }
    let lf = ", \"isDirectory\": false}";
    proof {
        reveal_strlit(", \"isDirectory\": false}");
        assert(lf@ =~= lit_false_tail());
    }
    if match_lit(s, p1, lf) {
        let t = TreeEntry::new_file(name);
        return Option::Some((t, p1 + 23));
    }
    let lt = ", \"isDirectory\": true, \"children\": [";
    proof {
        reveal_strlit(", \"isDirectory\": true, \"children\": [");
        assert(lt@ =~= lit_true_tail());
    }
    if !match_lit(s, p1, lt) {
        return Option::None;
    }
    let p2 = p1 + 36;
    let (kids, p3) = match parse_list_at(s, p2) {
        Option::None => {
            return Option::None;
        },
        Option::Some(x) => x,
    };
    let le = "]}";
    proof {
        reveal_strlit("]}");
        assert(le@ =~= lit_end());
    }
    if !match_lit(s, p3, le) {
        return Option::None;
    }
    let t = TreeEntry { name, is_dir: true, children: Option::Some(kids) };
    Option::Some((t, p3 + 2))
}

/// Reads a children sequence; stops (without consuming it) at the closing
/// bracket.
fn parse_list_at(s: &str, pos: usize) -> (r: Option<(Vec<TreeEntry>, usize)>)
    requires
        pos <= s@.len(),
    ensures
        ({
            let sr = spec_parse_list(s@, pos as int);
            match r {
                Option::Some((ts, q)) => sr == Option::Some(
                    (TreeEntry::model_list(ts@, ts@.len() as int), q as int),
                ) && pos <= q <= s@.len() && forall|k: int|
                    0 <= k < ts@.len() ==> (#[trigger] ts@[k]).wf(),
                Option::None => sr is None,
            }
        }),
    decreases s@.len() - pos, 1int,
{
    let n = s.unicode_len();
    if pos >= n {
        return Option::None;
    }
    if s.get_char(pos) == ']' {
        let v: Vec<TreeEntry> = Vec::new();
        proof {
            crate::fs::lemma_entry_model_list(v@, 0);
            assert(TreeEntry::model_list(v@, 0) =~= Seq::<TreeModel>::empty());
        }
        return Option::Some((v, pos));
    }
    let (t, p1) = match parse_entry_at(s, pos) {
        Option::None => {
            return Option::None;
        },
        Option::Some(x) => x,
    };
    let (rest, p2) = match parse_list_rest_at(s, p1) {
        Option::None => {
            return Option::None;
        },
        Option::Some(x) => x,
    };
    let ghost rv = rest@;
    let mut v = rest;
    v.insert(0, t);
    proof {
        crate::fs::lemma_entry_model_list(rv, rv.len() as int);
        crate::fs::lemma_entry_model_list(v@, v@.len() as int);
        rv.insert_ensures(0, t);
        let lhs = TreeEntry::model_list(v@, v@.len() as int);
        let rhs = seq![t.model()] + TreeEntry::model_list(rv, rv.len() as int);
        assert forall|k: int| 0 <= k < lhs.len() implies lhs[k] == rhs[k] by {
            assert(lhs[k] == v@[k].model());
            if k == 0 {
                assert(v@[0] == t);
            } else {
                assert(v@[k] == rv[k - 1]);
                assert(TreeEntry::model_list(rv, rv.len() as int)[k - 1] == rv[k - 1].model());
            }
        }
        assert(lhs =~= rhs);
    }
    Option::Some((v, p2))
}

/// Reads the remaining children after the first; stops (without consuming
/// it) at the closing bracket.
fn parse_list_rest_at(s: &str, pos: usize) -> (r: Option<(Vec<TreeEntry>, usize)>)
    requires
        pos <= s@.len(),
    ensures
        ({
            let sr = spec_parse_list_rest(s@, pos as int);
            match r {
                Option::Some((ts, q)) => sr == Option::Some(
                    (TreeEntry::model_list(ts@, ts@.len() as int), q as int),
                ) && pos <= q <= s@.len() && forall|k: int|
                    0 <= k < ts@.len() ==> (#[trigger] ts@[k]).wf(),
                Option::None => sr is None,
            }
        }),
    decreases s@.len() - pos, 2int,
{
    let n = s.unicode_len();
    if pos >= n {
        return Option::None;
    }
    if s.get_char(pos) == ']' {
        let v: Vec<TreeEntry> = Vec::new();
        proof {
            crate::fs::lemma_entry_model_list(v@, 0);
            assert(TreeEntry::model_list(v@, 0) =~= Seq::<TreeModel>::empty());
        }
        return Option::Some((v, pos));
    }
    let sep = ", ";
    proof {
        reveal_strlit(", ");
        assert(sep@ =~= lit_sep());
    }
    if !match_lit(s, pos, sep) {
        return Option::None;
    }
    let (t, p1) = match parse_entry_at(s, pos + 2) {
        Option::None => {
            return Option::None;
        },
        Option::Some(x) => x,
    };
    let (rest, p2) = match parse_list_rest_at(s, p1) {
        Option::None => {
            return Option::None;
        },
        Option::Some(x) => x,
    };
    let ghost rv = rest@;
    let mut v = rest;
    v.insert(0, t);
    proof {
        crate::fs::lemma_entry_model_list(rv, rv.len() as int);
        crate::fs::lemma_entry_model_list(v@, v@.len() as int);
        rv.insert_ensures(0, t);
        let lhs = TreeEntry::model_list(v@, v@.len() as int);
        let rhs = seq![t.model()] + TreeEntry::model_list(rv, rv.len() as int);
        assert forall|k: int| 0 <= k < lhs.len() implies lhs[k] == rhs[k] by {
            assert(lhs[k] == v@[k].model());
            if k == 0 {
                assert(v@[0] == t);
            } else {
                assert(v@[k] == rv[k - 1]);
                assert(TreeEntry::model_list(rv, rv.len() as int)[k - 1] == rv[k - 1].model());
            }
        }
        assert(lhs =~= rhs);
    }
    Option::Some((v, p2))
}

/// Appends the escaped form of `name` to `out`.
fn emit_name(out: &mut String, name: &String)
    ensures
        final(out)@ == old(out)@ + esc(name@),
{
    let s = name.as_str();
    let n = s.unicode_len();
    let mut i: usize = 0;
    proof {
        assert(name@.take(0) =~= Seq::<char>::empty());
        assert(out@ =~= old(out)@ + esc(name@.take(0)));
    }
    while i < n
        invariant
            n == name@.len(),
            i <= n,
            s@ == name@,
            out@ == old(out)@ + esc(name@.take(i as int)),
        decreases n - i,
    {
        let c = s.get_char(i);
        if c == '\\' || c == '"' {
            let bs = "\\";
            proof {
                reveal_strlit("\\");
                assert(bs@ =~= seq!['\\']);
            }
            out.append(bs);
        }
        let piece = s.substring_char(i, i + 1);
        out.append(piece);
        proof {
            assert(piece@ =~= seq![name@[i as int]]);
            lemma_esc_snoc(name@.take(i as int), name@[i as int]);
            assert(name@.take(i as int + 1) =~= name@.take(i as int).push(name@[i as int]));
            if name@[i as int] == '\\' || name@[i as int] == '"' {
                assert(esc_char(name@[i as int]) =~= seq!['\\', name@[i as int]]);
                assert(out@ =~= old(out)@ + esc(name@.take(i as int + 1)));
            } else {
                assert(out@ =~= old(out)@ + esc(name@.take(i as int + 1)));
            }
        }
        i += 1;
    }
    proof {
        assert(name@.take(n as int) =~= name@);
    }
}

} // verus!
