//! Character-level string helpers shared by the parser and the renderers.

use vstd::prelude::*;

verus! {

/// `String::push` appends one character.
pub assume_specification[ String::push ](string: &mut String, ch: char)
    ensures
        final(string)@ == old(string)@.push(ch),
;

/// `s` begins with `p`.
pub open spec fn seq_starts_with(s: Seq<char>, p: Seq<char>) -> bool {
    p.len() <= s.len() && s.subrange(0, p.len() as int) == p
}

/// `s` ends with `p`.
pub open spec fn seq_ends_with(s: Seq<char>, p: Seq<char>) -> bool {
    p.len() <= s.len() && s.subrange(s.len() - p.len(), s.len() as int) == p
}

/// Lexicographic order on character sequences, by code point.
///
/// UTF-8 preserves code point order, so this is the byte order in which
/// `str` values compare.
pub open spec fn seq_lt(a: Seq<char>, b: Seq<char>) -> bool
    decreases a.len(),
{
    if b.len() == 0 {
        false
    } else if a.len() == 0 {
        true
    } else if a[0] != b[0] {
        a[0] < b[0]
    } else {
        seq_lt(a.drop_first(), b.drop_first())
    }
}

/// Lexicographic "less than or equal".
pub open spec fn seq_le(a: Seq<char>, b: Seq<char>) -> bool {
    a == b || seq_lt(a, b)
}

/// The concatenation of `parts`, with `sep` between consecutive parts.
pub open spec fn seq_join(parts: Seq<Seq<char>>, sep: Seq<char>) -> Seq<char>
    decreases parts.len(),
{
    if parts.len() == 0 {
        Seq::empty()
    } else if parts.len() == 1 {
        parts[0]
    } else {
        seq_join(parts.drop_last(), sep) + sep + parts.last()
    }
}

/// `seq_lt` never holds of a sequence and itself.
pub proof fn lemma_seq_lt_irreflexive(a: Seq<char>)
    ensures
        !seq_lt(a, a),
    decreases a.len(),
{
    if a.len() > 0 {
        lemma_seq_lt_irreflexive(a.drop_first());
    }
}

/// `seq_lt` is transitive.
pub proof fn lemma_seq_lt_transitive(a: Seq<char>, b: Seq<char>, c: Seq<char>)
    requires
        seq_lt(a, b),
        seq_lt(b, c),
    ensures
        seq_lt(a, c),
    decreases a.len(),
{
    if a.len() > 0 && b.len() > 0 && c.len() > 0 && a[0] == b[0] && b[0] == c[0] {
        lemma_seq_lt_transitive(a.drop_first(), b.drop_first(), c.drop_first());
    }
}

/// Any two sequences are equal or ordered one way or the other.
pub proof fn lemma_seq_lt_total(a: Seq<char>, b: Seq<char>)
    ensures
        a == b || seq_lt(a, b) || seq_lt(b, a),
    decreases a.len(),
{
    if a.len() > 0 && b.len() > 0 {
        if a[0] == b[0] {
            lemma_seq_lt_total(a.drop_first(), b.drop_first());
            if a.drop_first() == b.drop_first() {
                assert(a =~= seq![a[0]] + a.drop_first());
                assert(b =~= seq![b[0]] + b.drop_first());
            }
        }
    } else if a.len() == 0 && b.len() == 0 {
        assert(a =~= b);
    }
}

/// `seq_lt` is asymmetric.
pub proof fn lemma_seq_lt_asymmetric(a: Seq<char>, b: Seq<char>)
    requires
        seq_lt(a, b),
    ensures
        !seq_lt(b, a),
{
    if seq_lt(b, a) {
        lemma_seq_lt_transitive(a, b, a);
        lemma_seq_lt_irreflexive(a);
    }
}

/// Whether two strings hold the same characters.
pub fn str_eq(a: &str, b: &str) -> (res: bool)
    ensures
        res == (a@ == b@),
{
    let n = a.unicode_len();
    let m = b.unicode_len();
    if n != m {
        return false;
    }
    let mut i: usize = 0;
    while i < n
        invariant
            n == a@.len(),
            m == b@.len(),
            n == m,
            i <= n,
            forall|k: int| 0 <= k < i ==> a@[k] == b@[k],
        decreases n - i,
    {
        if a.get_char(i) != b.get_char(i) {
            return false;
        }
        i += 1;
    }
    assert(a@ =~= b@);
    true
}

/// Whether `s` begins with `p`.
pub fn starts_with(s: &str, p: &str) -> (res: bool)
    ensures
        res == seq_starts_with(s@, p@),
{
    let n = s.unicode_len();
    let m = p.unicode_len();
    if m > n {
        return false;
    }
    let mut i: usize = 0;
    while i < m
        invariant
            n == s@.len(),
            m == p@.len(),
            m <= n,
            i <= m,
            forall|k: int| 0 <= k < i ==> s@[k] == p@[k],
        decreases m - i,
    {
        if s.get_char(i) != p.get_char(i) {
            assert(s@.subrange(0, m as int)[i as int] != p@[i as int]);
            return false;
        }
        i += 1;
    }
    assert(s@.subrange(0, m as int) =~= p@);
    true
}

/// Whether `s` ends with `p`.
pub fn ends_with(s: &str, p: &str) -> (res: bool)
    ensures
        res == seq_ends_with(s@, p@),
{
    let n = s.unicode_len();
    let m = p.unicode_len();
    if m > n {
        return false;
    }
    let off = n - m;
    let mut i: usize = 0;
    while i < m
        invariant
            n == s@.len(),
            m == p@.len(),
            m <= n,
            off == n - m,
            i <= m,
            forall|k: int| 0 <= k < i ==> s@[off + k] == p@[k],
        decreases m - i,
    {
        if s.get_char(off + i) != p.get_char(i) {
            assert(s@.subrange(off as int, n as int)[i as int] != p@[i as int]);
            return false;
        }
        i += 1;
    }
    assert(s@.subrange(off as int, n as int) =~= p@);
    true
}

/// Whether `a` sorts strictly before `b`.
pub fn str_lt(a: &str, b: &str) -> (res: bool)
    ensures
        res == seq_lt(a@, b@),
{
    let n = a.unicode_len();
    let m = b.unicode_len();
    let mut i: usize = 0;
    assert(a@.skip(0) =~= a@);
    assert(b@.skip(0) =~= b@);
    while i < n && i < m
        invariant
            n == a@.len(),
            m == b@.len(),
            i <= n,
            i <= m,
            forall|k: int| 0 <= k < i ==> a@[k] == b@[k],
            seq_lt(a@, b@) == seq_lt(a@.skip(i as int), b@.skip(i as int)),
        decreases n - i,
    {
        let x = a.get_char(i);
        let y = b.get_char(i);
        if x != y {
            return x < y;
        }
        assert(a@.skip(i as int).drop_first() =~= a@.skip(i + 1));
        assert(b@.skip(i as int).drop_first() =~= b@.skip(i + 1));
        i += 1;
    }
    i < m
}

/// A fresh string holding the characters of `s`.
pub fn to_owned_string(s: &str) -> (res: String)
    ensures
        res@ == s@,
{
    String::from_str(s)
}

/// A copy of `s`.
pub fn copy_string(s: &String) -> (res: String)
    ensures
        res@ == s@,
{
    String::from_str(s.as_str())
}

/// A copy of a vector of strings.
pub fn copy_strings(v: &Vec<String>) -> (res: Vec<String>)
    ensures
        res@.len() == v@.len(),
        forall|i: int| 0 <= i < v@.len() ==> #[trigger] res@[i]@ == v@[i]@,
{
    let mut out: Vec<String> = Vec::new();
    let mut i: usize = 0;
    while i < v.len()
        invariant
            i <= v@.len(),
            out@.len() == i,
            forall|k: int| 0 <= k < i ==> #[trigger] out@[k]@ == v@[k]@,
        decreases v@.len() - i,
    {
        out.push(copy_string(&v[i]));
        i += 1;
    }
    out
}

/// The views of a vector of strings.
pub open spec fn strings_view(v: Seq<String>) -> Seq<Seq<char>> {
    v.map_values(|s: String| s@)
}

/// A copy of a vector of strings, stated over its views.
pub fn clone_strings(v: &Vec<String>) -> (res: Vec<String>)
    ensures
        strings_view(res@) == strings_view(v@),
{
    let res = copy_strings(v);
    assert(strings_view(res@) =~= strings_view(v@));
    res
}

/// Whether `v` holds a string equal to `s`.
pub fn contains_str(v: &Vec<String>, s: &str) -> (res: bool)
    ensures
        res == strings_view(v@).contains(s@),
{
    let mut i: usize = 0;
    while i < v.len()
        invariant
            i <= v@.len(),
            forall|k: int| 0 <= k < i ==> v@[k]@ != s@,
        decreases v@.len() - i,
    {
        if str_eq(v[i].as_str(), s) {
            assert(strings_view(v@)[i as int] == s@);
            return true;
        }
        i += 1;
    }
    assert forall|k: int| 0 <= k < strings_view(v@).len() implies strings_view(v@)[k] != s@ by {
        assert(strings_view(v@)[k] == v@[k]@);
    }
    false
}

/// The join of `parts` with `sep` between consecutive parts.
pub fn join_strings(parts: &[String], sep: &str) -> (res: String)
    ensures
        res@ == seq_join(parts@.map_values(|s: String| s@), sep@),
{
    let ghost views = parts@.map_values(|s: String| s@);
    let mut out = String::new();
    let mut i: usize = 0;
    while i < parts.len()
        invariant
            i <= parts@.len(),
            views == parts@.map_values(|s: String| s@),
            out@ == seq_join(views.take(i as int), sep@),
        decreases parts@.len() - i,
    {
        assert(views.take(i + 1).drop_last() =~= views.take(i as int));
        if i > 0 {
            out.append(sep);
        }
        out.append(parts[i].as_str());
        assert(views.take(i + 1).last() == parts@[i as int]@);
        if i == 0 {
            assert(out@ =~= seq_join(views.take(1), sep@));
        }
        i += 1;
    }
    assert(views.take(parts@.len() as int) =~= views);
    out
}


/// How a string is escaped for one position of one diagram format, character
/// by character.
#[derive(Clone, Copy, Debug, PartialEq, Eq, Structural)]
pub enum CharRule {
    /// `"` becomes `'`.
    Quotes,
    /// as `Quotes`, and `{`, `}` become `(`, `)`.
    Attr,
    /// as `Attr`, and a space becomes `_`.
    Word,
    /// `"`, `\`, `{`, `}`, `|`, `<`, `>` get a backslash in front.
    DotLabel,
    /// `\` and `"` get a backslash in front.
    Quoted,
}

/// A character that a DOT record label must escape.
pub open spec fn is_dot_special(c: char) -> bool {
    c == '"' || c == '\\' || c == '{' || c == '}' || c == '|' || c == '<' || c == '>'
}

/// What one character becomes under a rule.
pub open spec fn char_image(rule: CharRule, c: char) -> Seq<char> {
    match rule {
        CharRule::Quotes => if c == '"' {
            seq!['\'']
        } else {
            seq![c]
        },
        CharRule::Attr => if c == '"' {
            seq!['\'']
        } else if c == '{' {
            seq!['(']
        } else if c == '}' {
            seq![')']
        } else {
            seq![c]
        },
        CharRule::Word => if c == '"' {
            seq!['\'']
        } else if c == '{' {
            seq!['(']
        } else if c == '}' {
            seq![')']
        } else if c == ' ' {
            seq!['_']
        } else {
            seq![c]
        },
        CharRule::DotLabel => if is_dot_special(c) {
            seq!['\\', c]
        } else {
            seq![c]
        },
        CharRule::Quoted => if c == '\\' || c == '"' {
            seq!['\\', c]
        } else {
            seq![c]
        },
    }
}

/// A string with every character replaced by its image under a rule.
pub open spec fn map_chars(rule: CharRule, s: Seq<char>) -> Seq<char>
    decreases s.len(),
{
    if s.len() == 0 {
        Seq::empty()
    } else {
        map_chars(rule, s.drop_last()) + char_image(rule, s.last())
    }
}

/// The image of a concatenation is the concatenation of the images.
pub proof fn lemma_map_chars_append(rule: CharRule, a: Seq<char>, b: Seq<char>)
    ensures
        map_chars(rule, a + b) == map_chars(rule, a) + map_chars(rule, b),
    decreases b.len(),
{
    if b.len() == 0 {
        assert(a + b =~= a);
        assert(map_chars(rule, a) + map_chars(rule, b) =~= map_chars(rule, a));
    } else {
        assert((a + b).drop_last() =~= a + b.drop_last());
        lemma_map_chars_append(rule, a, b.drop_last());
        assert(map_chars(rule, a + b) =~= map_chars(rule, a) + map_chars(rule, b));
    }
}

/// Appends the image of `c` under `rule`.
fn push_image(out: &mut String, rule: CharRule, c: char)
    ensures
        final(out)@ == old(out)@ + char_image(rule, c),
{
    let ghost start = out@;
    match rule {
        CharRule::Quotes => {
            if c == '"' {
                out.push('\'');
            } else {
                out.push(c);
            }
        },
        CharRule::Attr => {
            if c == '"' {
                out.push('\'');
            } else if c == '{' {
                out.push('(');
            } else if c == '}' {
                out.push(')');
            } else {
                out.push(c);
            }
        },
        CharRule::Word => {
            if c == '"' {
                out.push('\'');
            } else if c == '{' {
                out.push('(');
            } else if c == '}' {
                out.push(')');
            } else if c == ' ' {
                out.push('_');
            } else {
                out.push(c);
            }
        },
        CharRule::DotLabel => {
            if c == '"' || c == '\\' || c == '{' || c == '}' || c == '|' || c == '<' || c == '>' {
                out.push('\\');
            }
            out.push(c);
        },
        CharRule::Quoted => {
            if c == '\\' || c == '"' {
                out.push('\\');
            }
            out.push(c);
        },
    }
    assert(out@ =~= start + char_image(rule, c));
}

/// Appends the image of `s` under `rule`.
pub fn append_mapped(out: &mut String, s: &str, rule: CharRule)
    ensures
        final(out)@ == old(out)@ + map_chars(rule, s@),
{
    let ghost start = out@;
    let n = s.unicode_len();
    let mut i: usize = 0;
    assert(s@.take(0) =~= Seq::<char>::empty());
    assert(start + map_chars(rule, s@.take(0)) =~= start);
    while i < n
        invariant
            n == s@.len(),
            i <= n,
            out@ == start + map_chars(rule, s@.take(i as int)),
        decreases n - i,
    {
        let c = s.get_char(i);
        push_image(out, rule, c);
        assert(s@.take(i + 1).drop_last() =~= s@.take(i as int));
        assert(s@.take(i + 1).last() == c);
        assert(out@ =~= start + map_chars(rule, s@.take(i + 1)));
        i += 1;
    }
    assert(s@.take(n as int) =~= s@);
}

/// The image of `s` under `rule`, as a new string.
pub fn mapped(s: &str, rule: CharRule) -> (res: String)
    ensures
        res@ == map_chars(rule, s@),
{
    let mut out = String::new();
    append_mapped(&mut out, s, rule);
    assert(out@ =~= map_chars(rule, s@));
    out
}


/// Reads a backslash-escaped string back: a backslash stands for the
/// character after it.
pub open spec fn unescape(t: Seq<char>) -> Seq<char>
    decreases t.len(),
{
    if t.len() == 0 {
        Seq::empty()
    } else if t[0] == '\\' && t.len() >= 2 {
        seq![t[1]] + unescape(t.skip(2))
    } else {
        seq![t[0]] + unescape(t.drop_first())
    }
}

/// A rule that puts a backslash in front of the characters it escapes,
/// the backslash among them.
pub open spec fn backslash_rule(rule: CharRule) -> bool {
    rule == CharRule::DotLabel || rule == CharRule::Quoted
}

proof fn lemma_map_chars_first(rule: CharRule, s: Seq<char>)
    requires
        s.len() > 0,
    ensures
        map_chars(rule, s) == char_image(rule, s[0]) + map_chars(rule, s.drop_first()),
{
    lemma_map_chars_append(rule, seq![s[0]], s.drop_first());
    assert(seq![s[0]] + s.drop_first() =~= s);
    assert(seq![s[0]].drop_last() =~= Seq::<char>::empty());
    assert(seq![s[0]].last() == s[0]);
    assert(map_chars(rule, Seq::<char>::empty()) =~= Seq::<char>::empty());
    assert(map_chars(rule, seq![s[0]]) =~= char_image(rule, s[0]));
}

proof fn lemma_unescape_mapped_prefix(rule: CharRule, s: Seq<char>, rest: Seq<char>)
    requires
        backslash_rule(rule),
    ensures
        unescape(map_chars(rule, s) + rest) == s + unescape(rest),
    decreases s.len(),
{
    if s.len() == 0 {
        assert(map_chars(rule, s) + rest =~= rest);
        assert(s + unescape(rest) =~= unescape(rest));
    } else {
        let c = s[0];
        let t = s.drop_first();
        lemma_map_chars_first(rule, s);
        lemma_unescape_mapped_prefix(rule, t, rest);
        let whole = char_image(rule, c) + map_chars(rule, t) + rest;
        assert(map_chars(rule, s) + rest =~= whole);
        if char_image(rule, c).len() == 2 {
            assert(whole[0] == '\\' && whole[1] == c);
            assert(whole.skip(2) =~= map_chars(rule, t) + rest);
        } else {
            assert(whole[0] == c && c != '\\');
            assert(whole.drop_first() =~= map_chars(rule, t) + rest);
        }
        assert(s =~= seq![c] + t);
        assert(unescape(whole) =~= s + unescape(rest));
    }
}

/// Backslash escaping is undone by reading the backslashes back: the
/// escaped text stands for exactly the string that was escaped.
pub proof fn lemma_unescape_backslashed(rule: CharRule, s: Seq<char>)
    requires
        backslash_rule(rule),
    ensures
        unescape(map_chars(rule, s)) == s,
{
    lemma_unescape_mapped_prefix(rule, s, Seq::empty());
    assert(map_chars(rule, s) + Seq::<char>::empty() =~= map_chars(rule, s));
    assert(s + unescape(Seq::<char>::empty()) =~= s);
}

/// The characters a replacing rule never leaves: a double quote, and for
/// the attribute rules braces, and for the word rule a space.
pub open spec fn removed_by(rule: CharRule, c: char) -> bool {
    match rule {
        CharRule::Quotes => c == '"',
        CharRule::Attr => c == '"' || c == '{' || c == '}',
        CharRule::Word => c == '"' || c == '{' || c == '}' || c == ' ',
        _ => false,
    }
}

/// A replacing rule swaps characters one for one: the result has the
/// length of its input, and none of the characters the rule removes.
pub proof fn lemma_replacing_rule(rule: CharRule, s: Seq<char>)
    requires
        !backslash_rule(rule),
    ensures
        map_chars(rule, s).len() == s.len(),
        forall|i: int| 0 <= i < s.len() ==> !removed_by(rule, #[trigger] map_chars(rule, s)[i]),
    decreases s.len(),
{
    if s.len() > 0 {
        let p = s.drop_last();
        lemma_replacing_rule(rule, p);
        let m = map_chars(rule, s);
        assert forall|i: int| 0 <= i < s.len() implies !removed_by(rule, #[trigger] m[i]) by {
            if i < p.len() {
                assert(m[i] == map_chars(rule, p)[i]);
            }
        }
    }
}


/// A concatenation begins with its first part and ends with its second.
pub proof fn lemma_concat_starts_ends(a: Seq<char>, b: Seq<char>)
    ensures
        seq_starts_with(a + b, a),
        seq_ends_with(a + b, b),
{
    assert((a + b).subrange(0, a.len() as int) =~= a);
    assert((a + b).subrange((a + b).len() - b.len(), (a + b).len() as int) =~= b);
}

} // verus!
