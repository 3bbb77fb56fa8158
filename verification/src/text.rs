//! Character-level text handling: the escaping of overlayfs mount option
//! values, the `lowerdir` option, path joining and decimal numbers.
use vstd::prelude::*;
use vstd::string::*;

verus! {

/// The characters that a mount option value escapes with a backslash.
pub open spec fn is_option_special(c: char) -> bool {
    c == '\\' || c == ',' || c == ':'
}

/// What one character of a mount option value becomes once escaped.
pub open spec fn escape_char(c: char) -> Seq<char> {
    if is_option_special(c) {
        seq!['\\', c]
    } else {
        seq![c]
    }
}

/// A mount option value with a backslash put before every `\`, `,` and `:`.
pub open spec fn escaped(s: Seq<char>) -> Seq<char>
    decreases s.len(),
{
    if s.len() == 0 {
        Seq::empty()
    } else {
        escape_char(s[0]) + escaped(s.drop_first())
    }
}

/// Escaping distributes over concatenation.
pub proof fn lemma_escaped_append(a: Seq<char>, b: Seq<char>)
    ensures
        escaped(a + b) == escaped(a) + escaped(b),
    decreases a.len(),
{
    if a.len() == 0 {
        assert(a + b =~= b);
    } else {
        assert((a + b).drop_first() =~= a.drop_first() + b);
        lemma_escaped_append(a.drop_first(), b);
        assert(escaped(a + b) =~= escaped(a) + escaped(b));
    }
}

/// Escaping one character more at the end appends its escape.
pub proof fn lemma_escaped_push(s: Seq<char>, c: char)
    ensures
        escaped(s.push(c)) == escaped(s) + escape_char(c),
{
    assert(s.push(c) =~= s + seq![c]);
    lemma_escaped_append(s, seq![c]);
    assert(seq![c].drop_first() =~= Seq::<char>::empty());
    assert(escaped(Seq::<char>::empty()) == Seq::<char>::empty());
    assert(escaped(seq![c]) =~= escape_char(c));
}

/// Puts a backslash before every `\`, `,` and `:` of `value`, so that it can
/// stand in a comma-separated list of colon-separated overlayfs options.
pub fn escape_mount_option_value(value: &str) -> (escaped_value: String)
    ensures
        escaped_value@ == escaped(value@),
{
    let n = value.unicode_len();
    let mut out = String::new();
    let mut i: usize = 0;
    proof {
        reveal_strlit("\\");
        assert(value@.take(0) =~= Seq::<char>::empty());
    }
    while i < n
        invariant
            i <= n,
            n == value@.len(),
            out@ == escaped(value@.take(i as int)),
        decreases n - i,
    {
        let c = value.get_char(i);
        proof {
            reveal_strlit("\\");
        }
        if c == '\\' || c == ',' || c == ':' {
            out.append("\\");
        }
        out.append(value.substring_char(i, i + 1));
        proof {
            assert(value@.take(i + 1) =~= value@.take(i as int).push(c));
            lemma_escaped_push(value@.take(i as int), c);
            assert(value@.subrange(i as int, i + 1) =~= seq![c]);
            assert(out@ == escaped(value@.take(i as int)) + escape_char(c));
        }
        i = i + 1;
    }
    proof {
        assert(value@.take(n as int) =~= value@);
    }
    out
}

/// The `lowerdir` option of an overlayfs mount: the layers, each escaped,
/// separated by colons.
pub open spec fn joined_layers(layers: Seq<Seq<char>>) -> Seq<char>
    decreases layers.len(),
{
    if layers.len() == 0 {
        Seq::empty()
    } else if layers.len() == 1 {
        escaped(layers[0])
    } else {
        escaped(layers[0]) + seq![':'] + joined_layers(layers.drop_first())
    }
}

/// The views of a list of strings.
pub open spec fn string_views(v: Seq<String>) -> Seq<Seq<char>> {
    v.map_values(|s: String| s@)
}

/// One layer more at the end adds a colon and its escape.
pub proof fn lemma_joined_push(layers: Seq<Seq<char>>, last: Seq<char>)
    requires
        layers.len() >= 1,
    ensures
        joined_layers(layers.push(last)) == joined_layers(layers) + seq![':'] + escaped(last),
    decreases layers.len(),
{
    if layers.len() == 1 {
        assert(layers.push(last).drop_first() =~= seq![last]);
        assert(joined_layers(seq![last]) == escaped(last));
        assert(joined_layers(layers) == escaped(layers[0]));
    } else {
        assert(layers.push(last).drop_first() =~= layers.drop_first().push(last));
        lemma_joined_push(layers.drop_first(), last);
    }
}

/// Builds the `lowerdir` option of an overlayfs mount from its layers, top
/// layer first.
pub fn lowerdir_option(layers: &Vec<String>) -> (option: String)
    ensures
        option@ == joined_layers(string_views(layers@)),
{
    let mut out = String::new();
    let mut i: usize = 0;
    let ghost views = string_views(layers@);
    proof {
        reveal_strlit(":");
    }
    while i < layers.len()
        invariant
            i <= layers.len(),
            views == string_views(layers@),
            out@ == joined_layers(views.take(i as int)),
        decreases layers.len() - i,
    {
        proof {
            reveal_strlit(":");
        }
        let part = escape_mount_option_value(layers[i].as_str());
        proof {
            assert(views.take(i + 1) =~= views.take(i as int).push(layers@[i as int]@));
            if i == 0 {
                assert(views.take(1) =~= seq![layers@[0]@]);
                assert(joined_layers(views.take(0)) =~= Seq::<char>::empty());
            } else {
                lemma_joined_push(views.take(i as int), layers@[i as int]@);
            }
        }
        if i > 0 {
            out.append(":");
        }
        out.append(part.as_str());
        i = i + 1;
    }
    proof {
        assert(views.take(layers.len() as int) =~= views);
    }
    out
}

/// Puts `prefix` in front of the first of `parts`.
pub open spec fn prepend_first(prefix: Seq<char>, parts: Seq<Seq<char>>) -> Seq<Seq<char>> {
    parts.update(0, prefix + parts[0])
}

/// Reads a `lowerdir` option back: splits it at the colons that no backslash
/// escapes, and drops the escaping backslashes.
pub open spec fn decode_layers(s: Seq<char>) -> Seq<Seq<char>>
    decreases s.len(),
{
    if s.len() == 0 {
        seq![Seq::<char>::empty()]
    } else if s[0] == '\\' && s.len() >= 2 {
        prepend_first(seq![s[1]], decode_layers(s.subrange(2, s.len() as int)))
    } else if s[0] == ':' {
        seq![Seq::<char>::empty()] + decode_layers(s.drop_first())
    } else {
        prepend_first(seq![s[0]], decode_layers(s.drop_first()))
    }
}

/// Decoding always yields at least one layer.
pub proof fn lemma_decode_nonempty(s: Seq<char>)
    ensures
        decode_layers(s).len() >= 1,
    decreases s.len(),
{
    if s.len() == 0 {
    } else if s[0] == '\\' && s.len() >= 2 {
        lemma_decode_nonempty(s.subrange(2, s.len() as int));
    } else if s[0] == ':' {
        lemma_decode_nonempty(s.drop_first());
    } else {
        lemma_decode_nonempty(s.drop_first());
    }
}

/// An escaped value followed by anything decodes to the value in front of
/// the first layer of what follows.
pub proof fn lemma_decode_escaped(a: Seq<char>, rest: Seq<char>)
    ensures
        decode_layers(escaped(a) + rest) == prepend_first(a, decode_layers(rest)),
    decreases a.len(),
{
    lemma_decode_nonempty(rest);
    if a.len() == 0 {
        assert(escaped(a) + rest =~= rest);
        assert(prepend_first(a, decode_layers(rest)) =~= decode_layers(rest));
    } else {
        let c = a[0];
        let tail = escaped(a.drop_first()) + rest;
        lemma_decode_escaped(a.drop_first(), rest);
        lemma_decode_nonempty(rest);
        let s = escaped(a) + rest;
        if is_option_special(c) {
            assert(s =~= seq!['\\', c] + tail);
            assert(s.subrange(2, s.len() as int) =~= tail);
            assert(decode_layers(s) == prepend_first(seq![c], decode_layers(tail)));
        } else {
            assert(s =~= seq![c] + tail);
            assert(s.drop_first() =~= tail);
            assert(decode_layers(s) == prepend_first(seq![c], decode_layers(tail)));
        }
        assert(seq![c] + (a.drop_first() + decode_layers(rest)[0]) =~= a + decode_layers(rest)[0]);
        assert(decode_layers(s) =~= prepend_first(a, decode_layers(rest)));
    }
}

/// The `lowerdir` option loses nothing: reading it back gives the layers
/// it was built from, whatever characters they hold.
pub proof fn lemma_lowerdir_round_trip(layers: Seq<Seq<char>>)
    requires
        layers.len() >= 1,
    ensures
        decode_layers(joined_layers(layers)) == layers,
    decreases layers.len(),
{
    let empty = Seq::<char>::empty();
    if layers.len() == 1 {
        assert(escaped(layers[0]) + empty =~= escaped(layers[0]));
        lemma_decode_escaped(layers[0], empty);
        assert(layers[0] + empty =~= layers[0]);
        assert(decode_layers(joined_layers(layers)) =~= layers);
    } else {
        let rest = seq![':'] + joined_layers(layers.drop_first());
        assert(joined_layers(layers) =~= escaped(layers[0]) + rest);
        lemma_decode_escaped(layers[0], rest);
        lemma_lowerdir_round_trip(layers.drop_first());
        assert(rest.drop_first() =~= joined_layers(layers.drop_first()));
        assert(decode_layers(rest) == seq![empty] + layers.drop_first());
        assert(layers[0] + empty =~= layers[0]);
        assert(decode_layers(joined_layers(layers)) =~= layers);
    }
}

/// Joins a name onto a path as `Path::join` does on Unix: a name that
/// starts with `/` replaces the path; otherwise a `/` is put between them
/// unless the path is empty or already ends with one.
pub open spec fn path_join(base: Seq<char>, name: Seq<char>) -> Seq<char> {
    if name.len() > 0 && name[0] == '/' {
        name
    } else if base.len() > 0 && base.last() != '/' {
        base + seq!['/'] + name
    } else {
        base + name
    }
}

/// Joins `name` onto the path `base`.
pub fn join_path(base: &str, name: &str) -> (joined: String)
    ensures
        joined@ == path_join(base@, name@),
{
    proof {
        reveal_strlit("/");
    }
    let name_len = name.unicode_len();
    if name_len > 0 && name.get_char(0) == '/' {
        return String::from_str(name);
    }
    let base_len = base.unicode_len();
    let mut out = String::from_str(base);
    if base_len > 0 && base.get_char(base_len - 1) != '/' {
        out.append("/");
    }
    out.append(name);
    out
}

/// The decimal digit that stands for `d`, which is below ten.
pub open spec fn digit_char(d: nat) -> char {
    (48 + d) as char
}

/// The decimal notation of `n`, without leading zeros.
pub open spec fn decimal(n: nat) -> Seq<char>
    decreases n,
{
    if n < 10 {
        seq![digit_char(n)]
    } else {
        decimal(n / 10) + seq![digit_char(n % 10)]
    }
}

fn digit_text(d: u128) -> (text: &'static str)
    requires
        d < 10,
    ensures
        text@ == seq![digit_char(d as nat)],
{
    proof {
        reveal_strlit("0");
        reveal_strlit("1");
        reveal_strlit("2");
        reveal_strlit("3");
        reveal_strlit("4");
        reveal_strlit("5");
        reveal_strlit("6");
        reveal_strlit("7");
        reveal_strlit("8");
        reveal_strlit("9");
    }
    if d == 0 {
        "0"
    } else if d == 1 {
        "1"
    } else if d == 2 {
        "2"
    } else if d == 3 {
        "3"
    } else if d == 4 {
        "4"
    } else if d == 5 {
        "5"
    } else if d == 6 {
        "6"
    } else if d == 7 {
        "7"
    } else if d == 8 {
        "8"
    } else {
        "9"
    }
}

/// Writes `n` in decimal.
pub fn decimal_text(n: u128) -> (text: String)
    ensures
        text@ == decimal(n as nat),
    decreases n,
{
    if n < 10 {
        String::from_str(digit_text(n))
    } else {
        let mut text = decimal_text(n / 10);
        text.append(digit_text(n % 10));
        text
    }
}

/// Strict lexicographic order of names, character by character: the order
/// in which a sorted map of `String` keys walks them (UTF-8 keeps the order
/// of code points, so comparing bytes and comparing characters agree).
pub open spec fn name_lt(a: Seq<char>, b: Seq<char>) -> bool
    decreases a.len(),
{
    if a.len() == 0 {
        b.len() > 0
    } else if b.len() == 0 {
        false
    } else if a[0] != b[0] {
        (a[0] as int) < (b[0] as int)
    } else {
        name_lt(a.drop_first(), b.drop_first())
    }
}

/// No name comes before itself.
pub proof fn lemma_name_lt_irreflexive(a: Seq<char>)
    ensures
        !name_lt(a, a),
    decreases a.len(),
{
    if a.len() > 0 {
        lemma_name_lt_irreflexive(a.drop_first());
    }
}

/// The order of names is transitive.
pub proof fn lemma_name_lt_transitive(a: Seq<char>, b: Seq<char>, c: Seq<char>)
    requires
        name_lt(a, b),
        name_lt(b, c),
    ensures
        name_lt(a, c),
    decreases a.len(),
{
    if a.len() > 0 && b.len() > 0 && c.len() > 0 {
        if a[0] == b[0] && b[0] == c[0] {
            lemma_name_lt_transitive(a.drop_first(), b.drop_first(), c.drop_first());
        }
    }
}

/// Two different names are ordered one way or the other.
pub proof fn lemma_name_lt_total(a: Seq<char>, b: Seq<char>)
    requires
        a != b,
    ensures
        name_lt(a, b) || name_lt(b, a),
    decreases a.len(),
{
    if a.len() > 0 && b.len() > 0 {
        if a[0] == b[0] {
            if a.drop_first() == b.drop_first() {
                assert(a =~= seq![a[0]] + a.drop_first());
                assert(b =~= seq![b[0]] + b.drop_first());
            }
            lemma_name_lt_total(a.drop_first(), b.drop_first());
        } else {
            let x = a[0];
            let y = b[0];
            assert(x as int != y as int);
        }
    } else if a.len() == 0 && b.len() == 0 {
        assert(a =~= b);
    }
}

/// Compares two names in the order of `name_lt`.
pub fn name_less(a: &str, b: &str) -> (less: bool)
    ensures
        less == name_lt(a@, b@),
{
    let a_len = a.unicode_len();
    let b_len = b.unicode_len();
    let mut i: usize = 0;
    proof {
        assert(a@.skip(0) =~= a@);
        assert(b@.skip(0) =~= b@);
    }
    while i < a_len && i < b_len
        invariant
            a_len == a@.len(),
            b_len == b@.len(),
            i <= a_len,
            i <= b_len,
            name_lt(a@, b@) == name_lt(a@.skip(i as int), b@.skip(i as int)),
        decreases a_len - i,
    {
        let ca = a.get_char(i);
        let cb = b.get_char(i);
        if ca != cb {
            assert(ca as u32 as int == ca as int);
            assert(cb as u32 as int == cb as int);
            return (ca as u32) < (cb as u32);
        }
        proof {
            assert(a@.skip(i as int).drop_first() =~= a@.skip(i + 1));
            assert(b@.skip(i as int).drop_first() =~= b@.skip(i + 1));
        }
        i = i + 1;
    }
    i == a_len && i < b_len
}


/// A decimal notation is made of digits only, at least one.
pub proof fn lemma_decimal_digits(n: nat)
    ensures
        decimal(n).len() >= 1,
        forall|i: int| 0 <= i < decimal(n).len() ==> 48 <= #[trigger] decimal(n)[i] as int <= 57,
    decreases n,
{
    if n >= 10 {
        lemma_decimal_digits(n / 10);
        let d = decimal(n / 10) + seq![digit_char(n % 10)];
        assert forall|i: int| 0 <= i < d.len() implies 48 <= #[trigger] d[i] as int <= 57 by {
            if i < decimal(n / 10).len() {
                assert(d[i] == decimal(n / 10)[i]);
            }
        }
    }
}

/// Different numbers are written differently.
pub proof fn lemma_decimal_injective(a: nat, b: nat)
    requires
        decimal(a) == decimal(b),
    ensures
        a == b,
    decreases a,
{
    lemma_decimal_digits(a / 10);
    lemma_decimal_digits(b / 10);
    if a < 10 && b < 10 {
        assert(decimal(a)[0] == digit_char(a));
        assert(decimal(b)[0] == digit_char(b));
        assert(decimal(a)[0] == decimal(b)[0]);
        assert(digit_char(a) == digit_char(b));
        assert(digit_char(a) as int == 48 + a);
        assert(digit_char(b) as int == 48 + b);
        assert(a == b);
    } else if a < 10 {
        assert(decimal(a).len() == 1);
        assert(decimal(b).len() == decimal(b / 10).len() + 1);
        assert(false);
    } else if b < 10 {
        assert(decimal(b).len() == 1);
        assert(decimal(a).len() == decimal(a / 10).len() + 1);
        assert(false);
    } else {
        let da = decimal(a);
        let db = decimal(b);
        assert(da.last() == digit_char(a % 10));
        assert(db.last() == digit_char(b % 10));
        assert(da.drop_last() =~= decimal(a / 10));
        assert(db.drop_last() =~= decimal(b / 10));
        lemma_decimal_injective(a / 10, b / 10);
        assert(digit_char(a % 10) as int == 48 + a % 10);
        assert(digit_char(b % 10) as int == 48 + b % 10);
        assert(a % 10 == b % 10);
        assert(a == 10 * (a / 10) + a % 10);
        assert(b == 10 * (b / 10) + b % 10);
        assert(a == b);
    }
}

/// Two texts made of a part, a separator and a part, whose parts do not hold
/// the separator, are equal only part for part.
pub proof fn lemma_split_at_separator(a1: Seq<char>, b1: Seq<char>, a2: Seq<char>, b2: Seq<char>, sep: char)
    requires
        a1 + seq![sep] + b1 == a2 + seq![sep] + b2,
        forall|i: int| 0 <= i < a1.len() ==> a1[i] != sep,
        forall|i: int| 0 <= i < a2.len() ==> a2[i] != sep,
    ensures
        a1 == a2,
        b1 == b2,
{
    let s = a1 + seq![sep] + b1;
    let t = a2 + seq![sep] + b2;
    if a1.len() < a2.len() {
        assert(s[a1.len() as int] == sep);
        assert(t[a1.len() as int] == a2[a1.len() as int]);
    } else if a2.len() < a1.len() {
        assert(t[a2.len() as int] == sep);
        assert(s[a2.len() as int] == a1[a2.len() as int]);
    } else {
        assert(a1 =~= s.take(a1.len() as int));
        assert(a2 =~= t.take(a2.len() as int));
        assert(b1 =~= s.skip(a1.len() as int + 1));
        assert(b2 =~= t.skip(a2.len() as int + 1));
    }
}
} // verus!
