//! The names of the log files: `data_<id>.txt`.  The store names a new file
//! from its id, and recognises the ids of the files it finds when it is
//! opened, as `str::trim_start_matches`, `str::trim_end_matches` and
//! `u64::from_str` would: every leading `data_` and every trailing `.txt` is
//! dropped, and what is left must be a decimal number (with an optional `+`)
//! that fits in a `u64`.
use vstd::prelude::*;

verus! {

/// Appends `c` to `s` with `String::push`.
///
/// Trusted: the string gains `c` at its end.
#[verifier::external_body]
fn push_char(s: &mut String, c: char)
    ensures
        final(s)@ == old(s)@.push(c),
{
    s.push(c)
}

/// The characters of a string, in order.
fn chars_of(s: &str) -> (r: Vec<char>)
    ensures
        r@ == s@,
{
    broadcast use vstd::string::group_string_axioms;

    let mut r: Vec<char> = Vec::new();
    for c in it: s.chars()
        invariant
            it.seq() == s@,
            r@ == it.seq().take(it.index() as int),
    {
        r.push(c);
    }
    r
}

/// The string made of the given characters, in order.
fn string_of(cs: &Vec<char>) -> (r: String)
    ensures
        r@ == cs@,
{
    let mut r = String::new();
    let mut i: usize = 0;
    while i < cs.len()
        invariant
            i <= cs@.len(),
            r@ == cs@.take(i as int),
        decreases cs@.len() - i,
    {
        push_char(&mut r, cs[i]);
        assert(cs@.take(i + 1) =~= cs@.take(i as int).push(cs@[i as int]));
        i = i + 1;
    }
    assert(cs@.take(i as int) =~= cs@);
    r
}

/// `s` with every leading copy of `p` dropped.
pub open spec fn strip_prefixes(s: Seq<char>, p: Seq<char>) -> Seq<char>
    decreases s.len(),
{
    if 0 < p.len() <= s.len() && s.subrange(0, p.len() as int) == p {
        strip_prefixes(s.subrange(p.len() as int, s.len() as int), p)
    } else {
        s
    }
}

/// `s` with every trailing copy of `p` dropped.
pub open spec fn strip_suffixes(s: Seq<char>, p: Seq<char>) -> Seq<char>
    decreases s.len(),
{
    if 0 < p.len() <= s.len() && s.subrange(s.len() - p.len(), s.len() as int) == p {
        strip_suffixes(s.subrange(0, s.len() - p.len()), p)
    } else {
        s
    }
}

pub open spec fn is_digit(c: char) -> bool {
    '0' <= c <= '9'
}

pub open spec fn digit_value(c: char) -> nat {
    (c as nat - '0' as nat) as nat
}

/// The number that decimal digits write.
pub open spec fn digits_value(d: Seq<char>) -> nat
    decreases d.len(),
{
    if d.len() == 0 {
        0
    } else {
        digits_value(d.drop_last()) * 10 + digit_value(d.last())
    }
}

/// What `u64::from_str` reads: an optional `+`, then at least one decimal
/// digit, for a number no larger than `u64::MAX`.
pub open spec fn parse_u64(s: Seq<char>) -> Option<u64> {
    let d = if s.len() > 0 && s[0] == '+' {
        s.subrange(1, s.len() as int)
    } else {
        s
    };
    parse_digits(d)
}

/// The number that `d` writes, if `d` is at least one decimal digit and the
/// number fits in a `u64`.
pub open spec fn parse_digits(d: Seq<char>) -> Option<u64> {
    if d.len() > 0 && (forall|i: int| 0 <= i < d.len() ==> is_digit(#[trigger] d[i]))
        && digits_value(d) <= u64::MAX {
        Some(digits_value(d) as u64)
    } else {
        None
    }
}

/// The id of the log file with this name, if it names one.
pub open spec fn file_id_of_name(name: Seq<char>) -> Option<u64> {
    parse_u64(strip_suffixes(strip_prefixes(name, "data_"@), ".txt"@))
}

/// The ids of the names that name log files, in order.
pub open spec fn file_ids_of_names(names: Seq<Seq<char>>) -> Seq<u64>
    decreases names.len(),
{
    if names.len() == 0 {
        Seq::empty()
    } else {
        let rest = file_ids_of_names(names.drop_last());
        match file_id_of_name(names.last()) {
            Some(id) => rest.push(id),
            None => rest,
        }
    }
}

/// The decimal digits of `n`, without leading zeros.
pub open spec fn decimal(n: nat) -> Seq<char>
    decreases n,
{
    if n < 10 {
        seq![(n + '0' as nat) as char]
    } else {
        decimal(n / 10).push(((n % 10) + '0' as nat) as char)
    }
}

/// The name of the log file with id `id`.
pub open spec fn log_file_name_of(id: u64) -> Seq<char> {
    "data_"@ + decimal(id as nat) + ".txt"@
}

/// `s` is sorted in increasing order.
pub open spec fn sorted(s: Seq<u64>) -> bool {
    forall|i: int, j: int| 0 <= i < j < s.len() ==> s[i] <= s[j]
}

fn matches_at(s: &Vec<char>, i: usize, p: &Vec<char>) -> (r: bool)
    requires
        i + p@.len() <= s@.len(),
    ensures
        r == (s@.subrange(i as int, i + p@.len()) == p@),
{
    let slen = s.len();
    let mut j: usize = 0;
    while j < p.len()
        invariant
            slen == s@.len(),
            i + p@.len() <= s@.len(),
            j <= p@.len(),
            forall|k: int| 0 <= k < j ==> s@[i + k] == p@[k],
        decreases p@.len() - j,
    {
        assert(i + j < s@.len());
        if s[i + j] != p[j] {
            assert(s@.subrange(i as int, i + p@.len())[j as int] != p@[j as int]);
            return false;
        }
        j = j + 1;
    }
    assert(s@.subrange(i as int, i + p@.len()) =~= p@);
    true
}

/// The position where `s[from..to]` starts once every leading `p` is gone.
fn skip_prefixes(s: &Vec<char>, from: usize, to: usize, p: &Vec<char>) -> (r: usize)
    requires
        from <= to <= s@.len(),
    ensures
        from <= r <= to,
        s@.subrange(r as int, to as int) == strip_prefixes(s@.subrange(from as int, to as int), p@),
{
    let mut i = from;
    while p.len() > 0 && p.len() <= to - i && matches_at(s, i, p)
        invariant
            from <= i <= to <= s@.len(),
            strip_prefixes(s@.subrange(from as int, to as int), p@) == strip_prefixes(
                s@.subrange(i as int, to as int),
                p@,
            ),
        decreases to - i,
    {
        let ghost w = s@.subrange(i as int, to as int);
        assert(w.subrange(0, p@.len() as int) =~= s@.subrange(i as int, i + p@.len()));
        assert(w.subrange(p@.len() as int, w.len() as int) =~= s@.subrange(
            i + p@.len(),
            to as int,
        ));
        i = i + p.len();
    }
    proof {
        let w = s@.subrange(i as int, to as int);
        if 0 < p@.len() <= w.len() {
            assert(w.subrange(0, p@.len() as int) =~= s@.subrange(i as int, i + p@.len()));
        }
    }
    i
}

/// The position where `s[from..to]` ends once every trailing `p` is gone.
fn skip_suffixes(s: &Vec<char>, from: usize, to: usize, p: &Vec<char>) -> (r: usize)
    requires
        from <= to <= s@.len(),
    ensures
        from <= r <= to,
        s@.subrange(from as int, r as int) == strip_suffixes(s@.subrange(from as int, to as int), p@),
{
    let mut e = to;
    while p.len() > 0 && p.len() <= e - from && matches_at(s, e - p.len(), p)
        invariant
            from <= e <= to <= s@.len(),
            strip_suffixes(s@.subrange(from as int, to as int), p@) == strip_suffixes(
                s@.subrange(from as int, e as int),
                p@,
            ),
        decreases e - from,
    {
        let ghost w = s@.subrange(from as int, e as int);
        assert(w.subrange(w.len() - p@.len(), w.len() as int) =~= s@.subrange(
            e - p@.len(),
            e as int,
        ));
        assert(w.subrange(0, w.len() - p@.len()) =~= s@.subrange(from as int, e - p@.len()));
        e = e - p.len();
    }
    proof {
        let w = s@.subrange(from as int, e as int);
        if 0 < p@.len() <= w.len() {
            assert(w.subrange(w.len() - p@.len(), w.len() as int) =~= s@.subrange(
                e - p@.len(),
                e as int,
            ));
        }
    }
    e
}

/// `u64::from_str` on `s[from..to]`.
fn parse_u64_exec(s: &Vec<char>, from: usize, to: usize) -> (r: Option<u64>)
    requires
        from <= to <= s@.len(),
    ensures
        r == parse_u64(s@.subrange(from as int, to as int)),
{
    let ghost w = s@.subrange(from as int, to as int);
    let start = if from < to && s[from] == '+' {
        from + 1
    } else {
        from
    };
    let ghost d = s@.subrange(start as int, to as int);
    assert(d =~= (if w.len() > 0 && w[0] == '+' {
        w.subrange(1, w.len() as int)
    } else {
        w
    }));
    if start >= to {
        return None;
    }
    let mut value: u64 = 0;
    let mut i = start;
    while i < to
        invariant
            start <= i <= to <= s@.len(),
            d == s@.subrange(start as int, to as int),
            parse_u64(s@.subrange(from as int, to as int)) == parse_digits(d),
            forall|k: int| start <= k < i ==> is_digit(#[trigger] s@[k]),
            value == digits_value(s@.subrange(start as int, i as int)),
        decreases to - i,
    {
        let c = s[i];
        if !('0' <= c && c <= '9') {
            assert(d[i - start] == s@[i as int]);
            assert(!is_digit(d[i - start]));
            return None;
        }
        let digit = (c as u32 - '0' as u32) as u64;
        let ghost next = s@.subrange(start as int, i + 1);
        assert(next.drop_last() =~= s@.subrange(start as int, i as int));
        assert(next =~= d.subrange(0, i + 1 - start));
        assert(digits_value(next) == value * 10 + digit);
        match value.checked_mul(10) {
            None => {
                proof {
                    lemma_overflow_is_none(d, (i + 1 - start) as int);
                }
                return None;
            },
            Some(v10) => match v10.checked_add(digit) {
                None => {
                    proof {
                        lemma_overflow_is_none(d, (i + 1 - start) as int);
                    }
                    return None;
                },
                Some(v) => {
                    value = v;
                },
            },
        }
        i = i + 1;
    }
    assert(s@.subrange(start as int, i as int) =~= d);
    Some(value)
}

/// Digits whose prefix already writes a number above `u64::MAX` are no
/// `u64`.
proof fn lemma_overflow_is_none(d: Seq<char>, n: int)
    requires
        0 <= n <= d.len(),
        digits_value(d.subrange(0, n)) > u64::MAX,
    ensures
        !(d.len() > 0 && (forall|i: int| 0 <= i < d.len() ==> is_digit(#[trigger] d[i]))
            && digits_value(d) <= u64::MAX),
{
    if forall|i: int| 0 <= i < d.len() ==> is_digit(#[trigger] d[i]) {
        lemma_digits_value_prefix(d, n);
    }
}

/// A prefix of decimal digits writes no larger a number than the whole.
proof fn lemma_digits_value_prefix(d: Seq<char>, n: int)
    requires
        0 <= n <= d.len(),
        forall|i: int| 0 <= i < d.len() ==> is_digit(#[trigger] d[i]),
    ensures
        digits_value(d.subrange(0, n)) <= digits_value(d),
    decreases d.len() - n,
{
    if n == d.len() {
        assert(d.subrange(0, n) =~= d);
    } else {
        lemma_digits_value_prefix(d, n + 1);
        let a = d.subrange(0, n + 1);
        assert(a.drop_last() =~= d.subrange(0, n));
        assert(digits_value(a) == digits_value(a.drop_last()) * 10 + digit_value(a.last()));
    }
}

/// The id of the log file named `name`, if it names one.
pub fn file_id_of(name: &str) -> (r: Option<u64>)
    ensures
        r == file_id_of_name(name@),
{
    let s = chars_of(name);
    let prefix = chars_of("data_");
    let suffix = chars_of(".txt");
    let start = skip_prefixes(&s, 0, s.len(), &prefix);
    let end = skip_suffixes(&s, start, s.len(), &suffix);
    assert(s@.subrange(0, s@.len() as int) =~= name@);
    parse_u64_exec(&s, start, end)
}

/// The ids of the log files among `names`, sorted in increasing order.
pub fn sorted_file_ids(names: &Vec<String>) -> (r: Vec<u64>)
    ensures
        sorted(r@),
        r@.to_multiset() == file_ids_of_names(names.deep_view()).to_multiset(),
{
    broadcast use vstd::seq_lib::group_to_multiset_ensures;

    let ghost dv = names.deep_view();
    let mut r: Vec<u64> = Vec::new();
    let mut n: usize = 0;
    while n < names.len()
        invariant
            n <= names@.len(),
            dv == names.deep_view(),
            sorted(r@),
            r@.to_multiset() == file_ids_of_names(dv.subrange(0, n as int)).to_multiset(),
        decreases names@.len() - n,
    {
        assert(dv.subrange(0, n + 1).drop_last() =~= dv.subrange(0, n as int));
        assert(dv[n as int] == names@[n as int]@);
        assert(dv.subrange(0, n + 1).last() == dv[n as int]);
        match file_id_of(names[n].as_str()) {
            None => {
                assert(file_ids_of_names(dv.subrange(0, n + 1)) == file_ids_of_names(
                    dv.subrange(0, n as int),
                ));
            },
            Some(id) => {
                assert(file_ids_of_names(dv.subrange(0, n + 1)) == file_ids_of_names(
                    dv.subrange(0, n as int),
                ).push(id));
                let mut j: usize = 0;
                while j < r.len() && r[j] <= id
                    invariant
                        j <= r@.len(),
                        forall|k: int| 0 <= k < j ==> r@[k] <= id,
                    decreases r@.len() - j,
                {
                    j = j + 1;
                }
                let ghost before = r@;
                r.insert(j, id);
                proof {
                    let fs = file_ids_of_names(dv.subrange(0, n as int));
                    vstd::seq_lib::to_multiset_insert(before, j as int, id);
                    vstd::seq_lib::to_multiset_build(fs, id);
                    assert(r@.to_multiset() == fs.push(id).to_multiset());
                }
                assert(sorted(r@)) by {
                    assert forall|a: int, b: int| 0 <= a < b < r@.len() implies r@[a] <= r@[b] by {
                        if b < j {
                        } else if b == j {
                        } else if a < j {
                            assert(r@[b] == before[b - 1]);
                            if j < before.len() {
                                assert(before[j as int] > id);
                            }
                        } else if a == j {
                            assert(before[b - 1] >= before[j as int]);
                        } else {
                        }
                    }
                }
                assert(file_ids_of_names(dv.subrange(0, n + 1)) == file_ids_of_names(
                    dv.subrange(0, n as int),
                ).push(id));
            },
        }
        n = n + 1;
    }
    assert(dv.subrange(0, n as int) =~= dv);
    r
}

/// The decimal digits of `n`, as characters.
fn decimal_exec(n: u64) -> (r: Vec<char>)
    ensures
        r@ == decimal(n as nat),
    decreases n,
{
    if n < 10 {
        let c = char_of_digit(n);
        let mut v = Vec::new();
        v.push(c);
        assert(v@ =~= decimal(n as nat));
        v
    } else {
        let mut v = decimal_exec(n / 10);
        v.push(char_of_digit(n % 10));
        v
    }
}

fn char_of_digit(d: u64) -> (c: char)
    requires
        d < 10,
    ensures
        c == (d + '0' as nat) as char,
{
    if d == 0 {
        '0'
    } else if d == 1 {
        '1'
    } else if d == 2 {
        '2'
    } else if d == 3 {
        '3'
    } else if d == 4 {
        '4'
    } else if d == 5 {
        '5'
    } else if d == 6 {
        '6'
    } else if d == 7 {
        '7'
    } else if d == 8 {
        '8'
    } else {
        '9'
    }
}

/// The name of the log file with id `id`: `data_<id>.txt`.
pub fn log_file_name(id: u64) -> (r: String)
    ensures
        r@ == log_file_name_of(id),
        is_canonical_file_name(r@, id),
{
    proof {
        law_log_file_name_canonical(id);
    }
    let mut cs = chars_of("data_");
    let mut digits = decimal_exec(id);
    cs.append(&mut digits);
    let mut suffix = chars_of(".txt");
    cs.append(&mut suffix);
    string_of(&cs)
}


/// The decimal digits of a number are at least one digit, and write it.
proof fn lemma_decimal(n: nat)
    ensures
        decimal(n).len() >= 1,
        forall|i: int| 0 <= i < decimal(n).len() ==> is_digit(#[trigger] decimal(n)[i]),
        digits_value(decimal(n)) == n,
    decreases n,
{
    if n < 10 {
        let d = decimal(n);
        assert(d.drop_last() =~= Seq::<char>::empty());
        assert(((n + '0' as nat) as char) as nat == n + '0' as nat);
        assert(digit_value(d.last()) == n);
        assert(digits_value(d.drop_last()) == 0);
        assert(digits_value(d) == digits_value(d.drop_last()) * 10 + digit_value(d.last()));
    } else {
        lemma_decimal(n / 10);
        let d = decimal(n);
        assert(d.drop_last() =~= decimal(n / 10));
        assert(n / 10 * 10 + n % 10 == n);
        assert((((n % 10) + '0' as nat) as char) as nat == (n % 10) + '0' as nat);
        assert(digit_value(d.last()) == n % 10);
        assert(digits_value(d.drop_last()) == n / 10);
        assert(digits_value(d) == digits_value(d.drop_last()) * 10 + digit_value(d.last()));
    }
}

/// The store recognises the files that it names: the id read from the name
/// of log file `id` is `id`.
pub proof fn law_file_name_round_trip(id: u64)
    ensures
        file_id_of_name(log_file_name_of(id)) == Some(id),
{
    reveal_strlit("data_");
    reveal_strlit(".txt");
    let d = decimal(id as nat);
    lemma_decimal(id as nat);
    let name = log_file_name_of(id);
    let p = "data_"@;
    let q = ".txt"@;
    let rest = d + q;
    assert(name.subrange(0, 5) =~= p);
    assert(name.subrange(5, name.len() as int) =~= rest);
    assert(rest[0] == d[0]);
    assert(rest.subrange(0, 5)[0] == d[0]);
    assert(strip_prefixes(rest, p) == rest);
    assert(strip_prefixes(name, p) == rest);
    assert(rest.subrange(rest.len() - 4, rest.len() as int) =~= q);
    assert(rest.subrange(0, rest.len() - 4) =~= d);
    let last = d[d.len() - 1];
    assert(is_digit(last));
    if d.len() >= 4 {
        assert(d.subrange(d.len() - 4, d.len() as int)[3] == last);
    }
    assert(strip_suffixes(d, q) == d);
    assert(strip_suffixes(rest, q) == d);
    assert(is_digit(d[0]));
    assert(parse_digits(d) == Some(id));
}

/// `name` is `data_`, then the decimal digits of `id` without leading zeros,
/// then `.txt`: the name that `format!("data_{}.txt", id)` gives.
pub open spec fn is_canonical_file_name(name: Seq<char>, id: u64) -> bool {
    &&& name.len() >= 10
    &&& name.subrange(0, 5) == seq!['d', 'a', 't', 'a', '_']
    &&& name.subrange(name.len() - 4, name.len() as int) == seq!['.', 't', 'x', 't']
    &&& forall|i: int| 5 <= i < name.len() - 4 ==> is_digit(#[trigger] name[i])
    &&& digits_value(name.subrange(5, name.len() - 4)) == id
    &&& (name[5] == '0' <==> id == 0)
    &&& (id == 0 ==> name.len() == 10)
}

/// The first digit of a positive number is not zero.
proof fn lemma_decimal_first(n: nat)
    ensures
        n > 0 ==> decimal(n)[0] != '0',
        n == 0 ==> decimal(n) == seq!['0'],
    decreases n,
{
    if n >= 10 {
        lemma_decimal_first(n / 10);
        lemma_decimal(n / 10);
        assert(decimal(n)[0] == decimal(n / 10)[0]);
    } else {
        assert(((n + '0' as nat) as char) as nat == n + '0' as nat);
        if n == 0 {
            assert(decimal(n) =~= seq!['0']);
        }
    }
}

/// The name of log file `id` writes `id` in decimal without leading zeros
/// between `data_` and `.txt`: the first digit is `0` only for id 0, which is
/// written as that one digit.
pub proof fn law_log_file_name_canonical(id: u64)
    ensures
        is_canonical_file_name(log_file_name_of(id), id),
{
    reveal_strlit("data_");
    reveal_strlit(".txt");
    let d = decimal(id as nat);
    lemma_decimal(id as nat);
    lemma_decimal_first(id as nat);
    let name = log_file_name_of(id);
    assert(name =~= "data_"@ + d + ".txt"@);
    assert(name.subrange(0, 5) =~= seq!['d', 'a', 't', 'a', '_']);
    assert(name.subrange(name.len() - 4, name.len() as int) =~= seq!['.', 't', 'x', 't']);
    assert(name.subrange(5, name.len() - 4) =~= d);
    assert forall|i: int| 5 <= i < name.len() - 4 implies is_digit(#[trigger] name[i]) by {
        assert(name[i] == d[i - 5]);
    }
    assert(name[5] == d[0]);
}

} // verus!
