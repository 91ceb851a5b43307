//! Structured metadata: a dynamically typed tree of values, read through
//! slash-delimited paths.

use vstd::prelude::*;

verus! {

/// A number of the tree: a non-negative integer, a negative integer, or
/// the bit pattern of a finite double-precision number.
#[derive(Debug, Clone, Copy)]
pub enum Number {
    PosInt(u64),
    NegInt(i64),
    Float(u64),
}

/// One member of an object: its key and its value.
pub type Member = (String, ContextValue);

/// A value of the tree. An object holds its members as key and value
/// pairs; a key is looked up from the front.
#[derive(Debug)]
pub enum ContextValue {
    Null,
    Bool(bool),
    Number(Number),
    Text(String),
    Array(Vec<ContextValue>),
    Object(Vec<Member>),
}

/// The double-precision pattern of negative zero.
pub const NEGATIVE_ZERO: u64 = 0x8000_0000_0000_0000;

/// Whether two numbers are equal. Numbers of different kinds never are;
/// two finite patterns are equal when they are the same pattern or both
/// stand for zero.
pub open spec fn same_number(a: Number, b: Number) -> bool {
    match (a, b) {
        (Number::PosInt(x), Number::PosInt(y)) => x == y,
        (Number::NegInt(x), Number::NegInt(y)) => x == y,
        (Number::Float(x), Number::Float(y)) => x == y || ((x == 0 || x == NEGATIVE_ZERO) && (y
            == 0 || y == NEGATIVE_ZERO)),
        _ => false,
    }
}

/// The value under the first member of `members` whose key is `key`.
pub open spec fn member(members: Seq<Member>, key: Seq<char>) -> Option<ContextValue>
    decreases members.len(),
{
    if members.len() == 0 {
        None
    } else if members[0].0@ == key {
        Some(members[0].1)
    } else {
        member(members.drop_first(), key)
    }
}

/// Whether two values are equal: scalars by value, arrays item by item,
/// objects member by member whatever the order of their members.
pub open spec fn same_value(a: ContextValue, b: ContextValue) -> bool
    decreases a,
{
    match a {
        ContextValue::Null => b is Null,
        ContextValue::Bool(x) => b is Bool && b->Bool_0 == x,
        ContextValue::Number(x) => b is Number && same_number(x, b->Number_0),
        ContextValue::Text(x) => b is Text && b->Text_0@ == x@,
        ContextValue::Array(items) => b is Array && same_items(items@, b->Array_0@, 0),
        ContextValue::Object(members) => b is Object && members@.len() == b->Object_0@.len()
            && same_members(members@, b->Object_0@, 0),
    }
}

/// Whether the items of `a` from `from` on equal those of `b`, place by
/// place, and the two are equally long.
pub open spec fn same_items(a: Seq<ContextValue>, b: Seq<ContextValue>, from: int) -> bool
    decreases a, a.len() - from,
{
    if a.len() != b.len() {
        false
    } else if from < 0 || from >= a.len() {
        true
    } else {
        same_value(a[from], b[from]) && same_items(a, b, from + 1)
    }
}

/// Whether each member of `a` from `from` on has an equal value under its
/// key in `b`.
pub open spec fn same_members(a: Seq<Member>, b: Seq<Member>, from: int) -> bool
    decreases a, a.len() - from,
{
    if from < 0 || from >= a.len() {
        true
    } else {
        (match member(b, a[from].0@) {
            Some(other) => same_value(a[from].1, other),
            None => false,
        }) && same_members(a, b, from + 1)
    }
}

/// Whether some item of `items` from `from` on equals `wanted`.
pub open spec fn holds_value(items: Seq<ContextValue>, wanted: ContextValue, from: int) -> bool
    decreases items.len() - from,
{
    if from < 0 || from >= items.len() {
        false
    } else {
        same_value(items[from], wanted) || holds_value(items, wanted, from + 1)
    }
}

/// `s` with each pair of a tilde and `second` replaced by `with`, pairs
/// taken from the left and not overlapping.
pub open spec fn replaced(s: Seq<char>, second: char, with: char) -> Seq<char>
    decreases s.len(),
{
    if s.len() == 0 {
        s
    } else if s.len() >= 2 && s[0] == '~' && s[1] == second {
        seq![with] + replaced(s.skip(2), second, with)
    } else {
        seq![s[0]] + replaced(s.skip(1), second, with)
    }
}

/// A path token with its escapes resolved: first `~1` to a slash, then
/// `~0` to a tilde.
pub open spec fn unescaped(token: Seq<char>) -> Seq<char> {
    replaced(replaced(token, '1', '/'), '0', '~')
}

/// Whether `c` is a decimal digit.
pub open spec fn is_digit(c: char) -> bool {
    '0' <= c && c <= '9'
}

/// The number that a run of decimal digits writes.
pub open spec fn digits_value(s: Seq<char>) -> int
    decreases s.len(),
{
    if s.len() == 0 {
        0
    } else {
        digits_value(s.drop_last()) * 10 + (s.last() as int - '0' as int)
    }
}

/// Whether every character of `s` is a decimal digit.
pub open spec fn all_digits(s: Seq<char>) -> bool {
    forall|i: int| 0 <= i < s.len() ==> is_digit(#[trigger] s[i])
}

/// The array index that a token names: decimal digits with no sign and no
/// leading zero, within the machine's index range.
pub open spec fn index_of(token: Seq<char>) -> Option<usize> {
    if token.len() == 0 || !all_digits(token) || (token[0] == '0' && token.len() != 1)
        || digits_value(token) > usize::MAX {
        None
    } else {
        Some(digits_value(token) as usize)
    }
}

/// One step down the tree: a member of an object by key, an item of an
/// array by index, nothing under any other value.
pub open spec fn child(value: ContextValue, token: Seq<char>) -> Option<ContextValue> {
    match value {
        ContextValue::Object(members) => member(members@, token),
        ContextValue::Array(items) => match index_of(token) {
            Some(i) => if i < items@.len() {
                Some(items@[i as int])
            } else {
                None
            },
            None => None,
        },
        _ => None,
    }
}

/// Where the token that begins at `from` ends: at the next slash, or at
/// the end of the path.
pub open spec fn token_end(path: Seq<char>, from: int) -> int
    decreases path.len() - from,
{
    if from < 0 || from >= path.len() || path[from] == '/' {
        from
    } else {
        token_end(path, from + 1)
    }
}

/// The value reached from `value` by the tokens of `path` from `from` on.
pub open spec fn walk(value: ContextValue, path: Seq<char>, from: int) -> Option<ContextValue>
    decreases path.len() - from,
{
    let end = token_end(path, from);
    if from < 0 || from > path.len() || end < from {
        None
    } else {
        match child(value, unescaped(path.subrange(from, end))) {
            None => None,
            Some(next) => if end >= path.len() {
                Some(next)
            } else {
                walk(next, path, end + 1)
            },
        }
    }
}

/// The value that `path` points to under `value`. The empty path points
/// to `value` itself; any other path must begin with a slash, and its
/// tokens, split at slashes, are followed one by one.
pub open spec fn pointed(value: ContextValue, path: Seq<char>) -> Option<ContextValue> {
    if path.len() == 0 {
        Some(value)
    } else if path[0] != '/' {
        None
    } else {
        walk(value, path, 1)
    }
}

/// The characters of `text`.
pub fn chars_of(text: &str) -> (chars: Vec<char>)
    ensures
        chars@ == text@,
{
    let n = text.unicode_len();
    let mut chars: Vec<char> = Vec::new();
    let mut i: usize = 0;
    while i < n
        invariant
            n == text@.len(),
            i <= n,
            chars@ == text@.subrange(0, i as int),
        decreases n - i,
    {
        chars.push(text.get_char(i));
        assert(chars@ =~= text@.subrange(0, i + 1));
        i += 1;
    }
    assert(text@.subrange(0, n as int) =~= text@);
    chars
}

/// Whether `key` is the text `token`.
pub fn key_is(key: &str, token: &Vec<char>) -> (same: bool)
    ensures
        same == (key@ == token@),
{
    let chars = chars_of(key);
    if chars.len() != token.len() {
        return false;
    }
    let mut i: usize = 0;
    while i < chars.len()
        invariant
            chars@ == key@,
            chars@.len() == token@.len(),
            i <= chars@.len(),
            forall|k: int| 0 <= k < i ==> chars@[k] == token@[k],
        decreases chars@.len() - i,
    {
        if chars[i] != token[i] {
            assert(key@[i as int] != token@[i as int]);
            return false;
        }
        i += 1;
    }
    assert(chars@ =~= token@);
    true
}

/// Replaces each pair of a tilde and `second` by `with`.
pub fn replace_escape(s: &Vec<char>, second: char, with: char) -> (out: Vec<char>)
    ensures
        out@ == replaced(s@, second, with),
{
    let n = s.len();
    let mut out: Vec<char> = Vec::new();
    let mut i: usize = 0;
    assert(s@.skip(0) =~= s@);
    while i < n
        invariant
            n == s@.len(),
            i <= n,
            out@ + replaced(s@.skip(i as int), second, with) == replaced(s@, second, with),
        decreases n - i,
    {
        let ghost rest = s@.skip(i as int);
        if i + 1 < n && s[i] == '~' && s[i + 1] == second {
            out.push(with);
            proof {
                assert(rest[0] == s@[i as int] && rest[1] == s@[i + 1]);
                assert(rest.skip(2) =~= s@.skip(i + 2));
                assert(out@ + replaced(s@.skip(i + 2), second, with) =~= out@.drop_last() + (
                seq![with] + replaced(rest.skip(2), second, with)));
            }
            i += 2;
        } else {
            out.push(s[i]);
            proof {
                assert(rest[0] == s@[i as int]);
                if rest.len() >= 2 {
                    assert(rest[1] == s@[i + 1]);
                }
                assert(rest.skip(1) =~= s@.skip(i + 1));
                assert(out@ + replaced(s@.skip(i + 1), second, with) =~= out@.drop_last() + (
                seq![s@[i as int]] + replaced(rest.skip(1), second, with)));
            }
            i += 1;
        }
    }
    assert(out@ + replaced(s@.skip(n as int), second, with) =~= out@);
    out
}

/// The array index that `token` names, if it names one.
pub fn parse_index(token: &Vec<char>) -> (index: Option<usize>)
    ensures
        index == index_of(token@),
{
    let n = token.len();
    if n == 0 {
        return None;
    }
    if token[0] == '0' && n != 1 {
        return None;
    }
    let mut value: usize = 0;
    let mut i: usize = 0;
    assert(token@.subrange(0, 0) =~= Seq::<char>::empty());
    while i < n
        invariant
            n == token@.len(),
            i <= n,
            all_digits(token@.subrange(0, i as int)),
            value == digits_value(token@.subrange(0, i as int)),
        decreases n - i,
    {
        let c = token[i];
        let ghost upto = token@.subrange(0, i + 1);
        proof {
            assert(upto.drop_last() =~= token@.subrange(0, i as int));
            assert(upto.last() == c);
        }
        if c < '0' || c > '9' {
            assert(!is_digit(token@[i as int]));
            return None;
        }
        let digit: usize = (c as u32 - '0' as u32) as usize;
        if value > (usize::MAX - digit) / 10 {
            proof {
                assert(digits_value(upto) > usize::MAX);
                lemma_digits_grow(token@, i + 1);
                if all_digits(token@) {
                    assert(digits_value(token@) >= digits_value(upto));
                }
            }
            return None;
        }
        value = value * 10 + digit;
        proof {
            assert forall|k: int| 0 <= k < upto.len() implies is_digit(#[trigger] upto[k]) by {
                if k < i {
                    assert(token@.subrange(0, i as int)[k] == upto[k]);
                }
            }
        }
        i += 1;
    }
    assert(token@.subrange(0, n as int) =~= token@);
    Some(value)
}

/// A run of digits writes a number at least as large as any run it begins
/// with.
pub proof fn lemma_digits_grow(s: Seq<char>, upto: int)
    requires
        0 <= upto <= s.len(),
    ensures
        all_digits(s) ==> digits_value(s) >= digits_value(s.subrange(0, upto)) >= 0,
    decreases s.len() - upto,
{
    if all_digits(s) {
        lemma_digits_nonnegative(s.subrange(0, upto));
        if upto == s.len() {
            assert(s.subrange(0, upto) =~= s);
        } else {
            let longer = s.subrange(0, upto + 1);
            assert(longer.drop_last() =~= s.subrange(0, upto));
            assert(is_digit(s[upto]));
            assert(longer.last() == s[upto]);
            lemma_digits_grow(s, upto + 1);
        }
    }
}

/// A run of digits writes no negative number.
pub proof fn lemma_digits_nonnegative(s: Seq<char>)
    requires
        all_digits(s),
    ensures
        digits_value(s) >= 0,
    decreases s.len(),
{
    if s.len() > 0 {
        assert(is_digit(s[s.len() - 1]));
        assert forall|i: int| 0 <= i < s.drop_last().len() implies is_digit(
            #[trigger] s.drop_last()[i],
        ) by {
            assert(s.drop_last()[i] == s[i]);
        }
        lemma_digits_nonnegative(s.drop_last());
    }
}

/// The characters of `path` from `from` up to `end`.
pub fn slice_of(path: &Vec<char>, from: usize, end: usize) -> (part: Vec<char>)
    requires
        from <= end <= path@.len(),
    ensures
        part@ == path@.subrange(from as int, end as int),
{
    let mut part: Vec<char> = Vec::new();
    let mut i: usize = from;
    while i < end
        invariant
            from <= i <= end <= path@.len(),
            part@ == path@.subrange(from as int, i as int),
        decreases end - i,
    {
        part.push(path[i]);
        assert(part@ =~= path@.subrange(from as int, i + 1));
        i += 1;
    }
    part
}

/// The value under the first member whose key is `token`.
pub fn find_member<'a>(members: &'a Vec<Member>, token: &Vec<char>) -> (found: Option<
    &'a ContextValue,
>)
    ensures
        match found {
            Some(value) => member(members@, token@) == Some(*value),
            None => member(members@, token@) is None,
        },
{
    let mut i: usize = 0;
    assert(members@.skip(0) =~= members@);
    while i < members.len()
        invariant
            i <= members@.len(),
            member(members@.skip(i as int), token@) == member(members@, token@),
        decreases members@.len() - i,
    {
        let ghost rest = members@.skip(i as int);
        assert(rest[0] == members@[i as int]);
        assert(rest.drop_first() =~= members@.skip(i + 1));
        if key_is(members[i].0.as_str(), token) {
            return Some(&members[i].1);
        }
        i += 1;
    }
    None
}

impl ContextValue {
    /// One step down the tree by one resolved token.
    pub fn step<'a>(&'a self, token: &Vec<char>) -> (found: Option<&'a ContextValue>)
        ensures
            match found {
                Some(value) => child(*self, token@) == Some(*value),
                None => child(*self, token@) is None,
            },
    {
        match self {
            ContextValue::Object(members) => find_member(members, token),
            ContextValue::Array(items) => match parse_index(token) {
                Some(i) => if i < items.len() {
                    Some(&items[i])
                } else {
                    None
                },
                None => None,
            },
            _ => None,
        }
    }

    /// The value that `path` points to, if there is one.
    pub fn pointer<'a>(&'a self, path: &str) -> (found: Option<&'a ContextValue>)
        ensures
            match found {
                Some(value) => pointed(*self, path@) == Some(*value),
                None => pointed(*self, path@) is None,
            },
    {
        let chars = chars_of(path);
        let n = chars.len();
        if n == 0 {
            return Some(self);
        }
        if chars[0] != '/' {
            return None;
        }
        let mut current: &ContextValue = self;
        let mut from: usize = 1;
        loop
            invariant
                n == chars@.len(),
                chars@ == path@,
                1 <= from <= n,
                walk(*current, chars@, from as int) == pointed(*self, path@),
            decreases n - from,
        {
            let mut end: usize = from;
            while end < n && chars[end] != '/'
                invariant
                    n == chars@.len(),
                    from <= end <= n,
                    token_end(chars@, end as int) == token_end(chars@, from as int),
                decreases n - end,
            {
                end += 1;
            }
            let raw = slice_of(&chars, from, end);
            let first = replace_escape(&raw, '1', '/');
            let token = replace_escape(&first, '0', '~');
            match current.step(&token) {
                None => {
                    return None;
                },
                Some(next) => {
                    if end >= n {
                        return Some(next);
                    }
                    current = next;
                    from = end + 1;
                },
            }
        }
    }

    /// Whether the value equals `other`.
    pub fn equals(&self, other: &ContextValue) -> (same: bool)
        ensures
            same == same_value(*self, *other),
        decreases *self,
    {
        match self {
            ContextValue::Null => match other {
                ContextValue::Null => true,
                _ => false,
            },
            ContextValue::Bool(x) => match other {
                ContextValue::Bool(y) => *x == *y,
                _ => false,
            },
            ContextValue::Number(x) => match other {
                ContextValue::Number(y) => numbers_equal(x, y),
                _ => false,
            },
            ContextValue::Text(x) => match other {
                ContextValue::Text(y) => *x == *y,
                _ => false,
            },
            ContextValue::Array(items) => match other {
                ContextValue::Array(others) => {
                    if items.len() != others.len() {
                        return false;
                    }
                    let n = items.len();
                    let mut i: usize = n;
                    while i > 0
                        invariant
                            n == items@.len(),
                            n == others@.len(),
                            i <= n,
                            same_items(items@, others@, i as int),
                            *self == ContextValue::Array(*items),
                            *other == ContextValue::Array(*others),
                        decreases i,
                    {
                        i -= 1;
                        proof {
                            vstd::std_specs::vec::axiom_vec_index_decreases(*items, i as int);
                            assert(self->Array_0 == *items);
                            assert(decreases_to!(*self => self->Array_0));
                            assert(decreases_to!(*items => items[i as int]));
                        }
                        if !items[i].equals(&others[i]) {
                            proof {
                                lemma_items_differ(items@, others@, i as int, 0);
                            }
                            return false;
                        }
                    }
                    true
                },
                _ => false,
            },
            ContextValue::Object(members) => match other {
                ContextValue::Object(others) => {
                    if members.len() != others.len() {
                        return false;
                    }
                    let n = members.len();
                    let mut i: usize = n;
                    while i > 0
                        invariant
                            n == members@.len(),
                            i <= n,
                            same_members(members@, others@, i as int),
                            *self == ContextValue::Object(*members),
                            *other == ContextValue::Object(*others),
                        decreases i,
                    {
                        i -= 1;
                        proof {
                            vstd::std_specs::vec::axiom_vec_index_decreases(*members, i as int);
                            assert(self->Object_0 == *members);
                            assert(decreases_to!(*self => self->Object_0));
                            assert(decreases_to!(*members => members[i as int]));
                            assert(decreases_to!(members[i as int] => members[i as int].1));
                        }
                        let key = chars_of(members[i].0.as_str());
                        let same = match find_member(others, &key) {
                            Some(value) => members[i].1.equals(value),
                            None => false,
                        };
                        if !same {
                            proof {
                                lemma_members_differ(members@, others@, i as int, 0);
                            }
                            return false;
                        }
                    }
                    true
                },
                _ => false,
            },
        }
    }
}

/// Where one place differs, the items differ from any earlier place on.
pub proof fn lemma_items_differ(a: Seq<ContextValue>, b: Seq<ContextValue>, at: int, from: int)
    requires
        a.len() == b.len(),
        0 <= from <= at < a.len(),
        !same_value(a[at], b[at]),
    ensures
        !same_items(a, b, from),
    decreases at - from,
{
    if from < at {
        lemma_items_differ(a, b, at, from + 1);
    }
}

/// Where one member has no equal, the members differ from any earlier
/// place on.
pub proof fn lemma_members_differ(a: Seq<Member>, b: Seq<Member>, at: int, from: int)
    requires
        0 <= from <= at < a.len(),
        !(match member(b, a[at].0@) {
            Some(other) => same_value(a[at].1, other),
            None => false,
        }),
    ensures
        !same_members(a, b, from),
    decreases at - from,
{
    if from < at {
        lemma_members_differ(a, b, at, from + 1);
    }
}

/// Whether two numbers are equal.
pub fn numbers_equal(a: &Number, b: &Number) -> (same: bool)
    ensures
        same == same_number(*a, *b),
{
    match (a, b) {
        (Number::PosInt(x), Number::PosInt(y)) => *x == *y,
        (Number::NegInt(x), Number::NegInt(y)) => *x == *y,
        (Number::Float(x), Number::Float(y)) => *x == *y || ((*x == 0 || *x == NEGATIVE_ZERO) && (*y
            == 0 || *y == NEGATIVE_ZERO)),
        _ => false,
    }
}

/// Whether some item of `items` equals `wanted`.
pub fn holds(items: &Vec<ContextValue>, wanted: &ContextValue) -> (found: bool)
    ensures
        found == holds_value(items@, *wanted, 0),
{
    let n = items.len();
    let mut i: usize = n;
    while i > 0
        invariant
            n == items@.len(),
            i <= n,
            !holds_value(items@, *wanted, i as int),
        decreases i,
    {
        i -= 1;
        if items[i].equals(wanted) {
            proof {
                lemma_holds_from(items@, *wanted, i as int, 0);
            }
            return true;
        }
    }
    false
}

/// An equal item at one place is found from any earlier place on.
pub proof fn lemma_holds_from(items: Seq<ContextValue>, wanted: ContextValue, at: int, from: int)
    requires
        0 <= from <= at < items.len(),
        same_value(items[at], wanted),
    ensures
        holds_value(items, wanted, from),
    decreases at - from,
{
    if from < at {
        lemma_holds_from(items, wanted, at, from + 1);
    }
}

} // verus!
