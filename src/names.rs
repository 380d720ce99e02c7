use vstd::prelude::*;

verus! {

/// The character of a decimal digit.
pub open spec fn digit_char(d: nat) -> char {
    seq!['0', '1', '2', '3', '4', '5', '6', '7', '8', '9'][d as int]
}

/// The decimal numeral of `n`, without leading zeros.
pub open spec fn decimal(n: nat) -> Seq<char>
    decreases n,
{
    if n < 10 {
        seq![digit_char(n)]
    } else {
        decimal(n / 10).push(digit_char(n % 10))
    }
}

/// The file name of segment `id`.
pub open spec fn log_name(id: nat) -> Seq<char> {
    decimal(id) + seq!['.', 'l', 'o', 'g']
}

/// The value of a sequence of decimal digits.
pub open spec fn digits_value(s: Seq<char>) -> nat
    decreases s.len(),
{
    if s.len() == 0 {
        0
    } else {
        10 * digits_value(s.drop_last()) + (s.last() as nat - '0' as nat) as nat
    }
}

pub open spec fn is_digit(c: char) -> bool {
    '0' <= c <= '9'
}

fn digit_str(d: u64) -> (r: &'static str)
    requires
        d < 10,
    ensures
        r@ == seq![digit_char(d as nat)],
{
    proof {
        reveal_strlit("0");
        reveal_strlit("1");
        reveal_strlit("2");
        reveal_strlit("3");
        reveal_strlit("4");
        reveal_strlit("5");
        reveal_strlit("6");
        reveal_strlit("7");
        reveal_strlit("8");
        reveal_strlit("9");
    }
    let r = if d == 0 {
        "0"
    } else if d == 1 {
        "1"
    } else if d == 2 {
        "2"
    } else if d == 3 {
        "3"
    } else if d == 4 {
        "4"
    } else if d == 5 {
        "5"
    } else if d == 6 {
        "6"
    } else if d == 7 {
        "7"
    } else if d == 8 {
        "8"
    } else {
        "9"
    };
    assert(r@ =~= seq![digit_char(d as nat)]);
    r
}

fn decimal_string(n: u64) -> (r: String)
    ensures
        r@ == decimal(n as nat),
    decreases n,
{
    if n < 10 {
        String::from_str(digit_str(n))
    } else {
        let mut s = decimal_string(n / 10);
        s.append(digit_str(n % 10));
        s
    }
}

/// The file name of segment `log_id`: its decimal id followed by `.log`.
pub fn gen_log_name(log_id: u64) -> (r: String)
    ensures
        r@ == log_name(log_id as nat),
{
    let mut s = decimal_string(log_id);
    proof {
        reveal_strlit(".log");
    }
    s.append(".log");
    assert(s@ =~= log_name(log_id as nat));
    s
}

proof fn lemma_digit_char(d: nat)
    requires
        d < 10,
    ensures
        is_digit(digit_char(d)),
        digit_char(d) as nat - '0' as nat == d,
        d > 0 ==> digit_char(d) != '0',
{
    let t = seq!['0', '1', '2', '3', '4', '5', '6', '7', '8', '9'];
    assert(t[0] == '0' && t[1] == '1' && t[2] == '2' && t[3] == '3' && t[4] == '4');
    assert(t[5] == '5' && t[6] == '6' && t[7] == '7' && t[8] == '8' && t[9] == '9');
}

proof fn lemma_decimal_digits(n: nat)
    ensures
        digits_value(decimal(n)) == n,
        decimal(n).len() > 0,
        forall|i: int| 0 <= i < decimal(n).len() ==> is_digit(#[trigger] decimal(n)[i]),
        n > 0 ==> decimal(n)[0] != '0',
    decreases n,
{
    lemma_digit_char(n % 10);
    if n < 10 {
        assert(seq![digit_char(n)].drop_last() =~= Seq::<char>::empty());
        assert(n % 10 == n);
        assert(digits_value(decimal(n)) == 10 * digits_value(Seq::<char>::empty()) + (digit_char(n) as nat - '0' as nat) as nat);
    } else {
        lemma_decimal_digits(n / 10);
        assert(decimal(n).drop_last() =~= decimal(n / 10));
        assert(decimal(n)[0] == decimal(n / 10)[0]);
        assert(n == 10 * (n / 10) + n % 10);
    }
}

proof fn lemma_value_prefix(s: Seq<char>, i: int)
    requires
        0 <= i <= s.len(),
        forall|j: int| 0 <= j < s.len() ==> is_digit(#[trigger] s[j]),
    ensures
        digits_value(s.subrange(0, i)) <= digits_value(s),
    decreases s.len() - i,
{
    if i < s.len() {
        lemma_value_prefix(s, i + 1);
        assert(s.subrange(0, i + 1).drop_last() =~= s.subrange(0, i));
    } else {
        assert(s.subrange(0, i) =~= s);
    }
}

/// The id that a segment file name gives, if it is one: a positive decimal
/// number without leading zeros, followed by `.log`.
pub fn parse_log_name(name: &str) -> (r: Option<u64>)
    ensures
        r matches Some(id) ==> id > 0 && name@ == log_name(id as nat),
        forall|id: u64| id > 0 && name@ == log_name(id as nat) ==> r == Some(id),
{
    let len = name.unicode_len();
    if len < 5 {
        proof {
            assert forall|id: u64| id > 0 && name@ == log_name(id as nat) implies false by {
                lemma_decimal_digits(id as nat);
            }
        }
        return None;
    }
    let ghost s = name@;
    let n_digits = len - 4;
    let ghost digits = s.subrange(0, n_digits as int);
    proof {
        assert forall|id: u64| id > 0 && name@ == log_name(id as nat) implies decimal(
            id as nat,
        ) == digits && s.subrange(n_digits as int, len as int) == seq!['.', 'l', 'o', 'g'] by {
            assert(s.subrange(0, n_digits as int) =~= decimal(id as nat));
            assert(s.subrange(n_digits as int, len as int) =~= seq!['.', 'l', 'o', 'g']);
        }
    }
    if name.get_char(n_digits) != '.' || name.get_char(n_digits + 1) != 'l' || name.get_char(
        n_digits + 2,
    ) != 'o' || name.get_char(n_digits + 3) != 'g' || name.get_char(0) == '0' {
        proof {
            assert forall|id: u64| id > 0 && name@ == log_name(id as nat) implies false by {
                lemma_decimal_digits(id as nat);
                assert(s.subrange(n_digits as int, len as int)[0] == s[n_digits as int]);
                assert(s.subrange(n_digits as int, len as int)[1] == s[n_digits + 1]);
                assert(s.subrange(n_digits as int, len as int)[2] == s[n_digits + 2]);
                assert(s.subrange(n_digits as int, len as int)[3] == s[n_digits + 3]);
                assert(digits[0] == s[0]);
            }
        }
        return None;
    }
    let mut acc: u64 = 0;
    let mut i: usize = 0;
    while i < n_digits
        invariant
            n_digits < len,
            len == s.len(),
            s == name@,
            digits == s.subrange(0, n_digits as int),
            i <= n_digits,
            acc == digits_value(s.subrange(0, i as int)),
            forall|j: int| 0 <= j < i ==> is_digit(#[trigger] s[j]),
            forall|id: u64|
                id > 0 && name@ == log_name(id as nat) ==> decimal(id as nat) == digits,
        decreases n_digits - i,
    {
        let c = name.get_char(i);
        if c < '0' || c > '9' {
            proof {
                assert forall|id: u64| id > 0 && name@ == log_name(id as nat) implies false by {
                    lemma_decimal_digits(id as nat);
                    assert(digits[i as int] == c);
                }
            }
            return None;
        }
        let d = (c as u32 - '0' as u32) as u64;
        proof {
            assert(s.subrange(0, i + 1).drop_last() =~= s.subrange(0, i as int));
            assert forall|id: u64| id > 0 && name@ == log_name(id as nat) implies digits_value(
                s.subrange(0, i + 1),
            ) <= id by {
                lemma_decimal_digits(id as nat);
                lemma_value_prefix(digits, i + 1);
                assert(digits.subrange(0, i + 1) =~= s.subrange(0, i + 1));
            }
        }
        if acc > (u64::MAX - d) / 10 {
            return None;
        }
        acc = acc * 10 + d;
        i = i + 1;
    }
    proof {
        assert(s.subrange(0, i as int) =~= digits);
        assert forall|id: u64| id > 0 && name@ == log_name(id as nat) implies acc == id by {
            lemma_decimal_digits(id as nat);
        }
    }
    if acc == 0 {
        return None;
    }
    let canon = gen_log_name(acc);
    let given = String::from_str(name);
    if canon == given {
        Some(acc)
    } else {
        None
    }
}

/// The names among `names` that are segment file names.
pub open spec fn names_a_segment(names: Seq<String>, id: u64) -> bool {
    id > 0 && exists|i: int| 0 <= i < names.len() && #[trigger] names[i]@ == log_name(id as nat)
}

/// Inserts `id` into the ascending `ids`, unless it is there already.
fn insert_sorted(ids: Vec<u64>, id: u64) -> (r: Vec<u64>)
    requires
        forall|i: int, j: int| 0 <= i < j < ids@.len() ==> ids@[i] < ids@[j],
    ensures
        forall|i: int, j: int| 0 <= i < j < r@.len() ==> r@[i] < r@[j],
        forall|x: u64| r@.contains(x) <==> (ids@.contains(x) || x == id),
{
    let mut ids = ids;
    let ghost before = ids@;
    let mut p: usize = 0;
    while p < ids.len() && ids[p] < id
        invariant
            ids@ == before,
            p <= ids@.len(),
            forall|i: int| 0 <= i < p ==> ids@[i] < id,
        decreases ids@.len() - p,
    {
        p = p + 1;
    }
    if p < ids.len() && ids[p] == id {
        proof {
            assert(ids@[p as int] == id);
        }
        return ids;
    }
    ids.insert(p, id);
    proof {
        assert forall|x: u64| ids@.contains(x) <==> (before.contains(x) || x == id) by {
            if ids@.contains(x) {
                let k = choose|k: int| 0 <= k < ids@.len() && ids@[k] == x;
                if k < p {
                    assert(before[k] == x);
                } else if k > p {
                    assert(before[k - 1] == x);
                }
            }
            if before.contains(x) {
                let k = choose|k: int| 0 <= k < before.len() && before[k] == x;
                if k < p {
                    assert(ids@[k] == x);
                } else {
                    assert(ids@[k + 1] == x);
                }
            }
            if x == id {
                assert(ids@[p as int] == x);
            }
        }
        assert(forall|x: u64| #[trigger] ids@.contains(x) <==> (before.contains(x) || x == id));
        assert(forall|i: int, j: int| 0 <= i < j < ids@.len() ==> ids@[i] < ids@[j]);
    }
    ids
}

/// The ids of the segment files among `names`, ascending, each once.
pub fn log_ids(names: &Vec<String>) -> (r: Vec<u64>)
    ensures
        forall|i: int, j: int| 0 <= i < j < r@.len() ==> r@[i] < r@[j],
        forall|id: u64| r@.contains(id) <==> names_a_segment(names@, id),
{
    let mut ids: Vec<u64> = Vec::new();
    let mut i: usize = 0;
    while i < names.len()
        invariant
            i <= names@.len(),
            forall|a: int, b: int| 0 <= a < b < ids@.len() ==> ids@[a] < ids@[b],
            forall|id: u64|
                ids@.contains(id) <==> (id > 0 && exists|k: int|
                    0 <= k < i && #[trigger] names@[k]@ == log_name(id as nat)),
        decreases names@.len() - i,
    {
        match parse_log_name(names[i].as_str()) {
            Some(id) => {
                ids = insert_sorted(ids, id);
            },
            None => {},
        }
        proof {
            assert forall|id: u64|
                ids@.contains(id) <==> (id > 0 && exists|k: int|
                    0 <= k < i + 1 && #[trigger] names@[k]@ == log_name(id as nat)) by {
                if id > 0 && names@[i as int]@ == log_name(id as nat) {
                    assert(names@[i as int]@ == log_name(id as nat));
                }
            }
        }
        i = i + 1;
    }
    ids
}

} // verus!
