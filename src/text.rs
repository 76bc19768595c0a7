use vstd::prelude::*;
use vstd::string::StringExecFns;
use crate::object::{str_text, Info, Object, Pointer, Time, Value};

verus! {

/// The decimal digit `d` as a character.
pub open spec fn digit_char(d: nat) -> char {
    if d == 0 {
        '0'
    } else if d == 1 {
        '1'
    } else if d == 2 {
        '2'
    } else if d == 3 {
        '3'
    } else if d == 4 {
        '4'
    } else if d == 5 {
        '5'
    } else if d == 6 {
        '6'
    } else if d == 7 {
        '7'
    } else if d == 8 {
        '8'
    } else {
        '9'
    }
}

/// `n` written in decimal, without leading zeros.
pub open spec fn decimal_spec(n: nat) -> Seq<char>
    decreases n,
{
    if n < 10 {
        seq![digit_char(n)]
    } else {
        decimal_spec(n / 10).push(digit_char(n % 10))
    }
}

fn digit_str(d: u64) -> (r: &'static str)
    requires
        d < 10,
    ensures
        r@ == seq![digit_char(d as nat)],
{
    let r = if d == 0 {
        "0"
    } else if d == 1 {
        "1"
    } else if d == 2 {
        "2"
    } else if d == 3 {
        "3"
    } else if d == 4 {
        "4"
    } else if d == 5 {
        "5"
    } else if d == 6 {
        "6"
    } else if d == 7 {
        "7"
    } else if d == 8 {
        "8"
    } else {
        "9"
    };
    proof {
        reveal_strlit("0");
        reveal_strlit("1");
        reveal_strlit("2");
        reveal_strlit("3");
        reveal_strlit("4");
        reveal_strlit("5");
        reveal_strlit("6");
        reveal_strlit("7");
        reveal_strlit("8");
        reveal_strlit("9");
    }
    assert(r@ =~= seq![digit_char(d as nat)]);
    r
}

/// Writes `n` in decimal.
pub fn decimal(n: u64) -> (r: String)
    ensures
        r@ == decimal_spec(n as nat),
    decreases n,
{
    if n < 10 {
        String::from_str(digit_str(n))
    } else {
        let mut s = decimal(n / 10);
        s.append(digit_str(n % 10));
        assert(s@ =~= decimal_spec(n as nat));
        s
    }
}

/// The decimal form of a number below `10^k` takes between one and `k` characters, and
/// starts with a digit.
pub proof fn lemma_decimal_shape(n: nat, k: nat)
    requires
        k >= 1,
        n < crate::bytes::pow10(k),
    ensures
        1 <= decimal_spec(n).len() <= k,
        '0' <= decimal_spec(n)[0] <= '9',
    decreases k,
{
    if n >= 10 {
        if k == 1 {
            assert(crate::bytes::pow10(1) == 10) by {
                reveal_with_fuel(crate::bytes::pow10, 2);
            }
        } else {
            lemma_decimal_shape(n / 10, (k - 1) as nat);
            assert(decimal_spec(n)[0] == decimal_spec(n / 10)[0]);
        }
    }
}

/// `n` in decimal, with a leading minus sign when negative.
pub open spec fn signed_decimal_spec(n: int) -> Seq<char> {
    if n < 0 {
        "-"@ + decimal_spec((-n) as nat)
    } else {
        decimal_spec(n as nat)
    }
}

/// Writes `n` in decimal, with a leading minus sign when negative.
pub fn signed_decimal(n: i64) -> (r: String)
    ensures
        r@ == signed_decimal_spec(n as int),
{
    if n < 0 {
        let magnitude = (-(n + 1)) as u64 + 1;
        let mut s = String::from_str("-");
        let digits = decimal(magnitude);
        s.append(digits.as_str());
        s
    } else {
        decimal(n as u64)
    }
}

/// How a value is shown to a person: numbers in decimal, strings as their text (a
/// null one as empty), pointers in hex after `0x`, an info as `(name => value)`, and
/// containers by a placeholder naming their kind.
pub open spec fn display_spec(v: Value) -> Seq<char> {
    match v {
        Value::Char(c) => signed_decimal_spec(c as int),
        Value::Int(n) => signed_decimal_spec(n as int),
        Value::Long(n) => signed_decimal_spec(n as int),
        Value::Str(t) => str_text(t),
        Value::Buffer(_) => "<buffer>"@,
        Value::Pointer(p) => "0x"@ + p,
        Value::Time(t) => decimal_spec(t as nat),
        Value::HashTable(_) => "<hash_table>"@,
        Value::Info(n, w) => "("@ + str_text(n) + " => "@ + str_text(w) + ")"@,
        Value::InfoList(_, _) => "<info_list>"@,
        Value::Array(_) => "<array>"@,
    }
}

impl Object {
    /// The object as shown to a person.
    pub fn to_display(&self) -> (r: String)
        ensures
            r@ == display_spec(self@),
    {
        match self {
            Object::Char(c) => signed_decimal(*c as i64),
            Object::Int(n) => signed_decimal(*n as i64),
            Object::Long(n) => signed_decimal(*n),
            Object::Str(s) => String::from_str(s.as_str()),
            Object::Buffer(_) => String::from_str("<buffer>"),
            Object::Pointer(Pointer(p)) => {
                let mut s = String::from_str("0x");
                s.append(p.as_str());
                s
            },
            Object::Time(Time(t)) => decimal(*t),
            Object::HashTable(_) => String::from_str("<hash_table>"),
            Object::Info(Info { name, value }) => {
                let mut s = String::from_str("(");
                s.append(name.as_str());
                s.append(" => ");
                s.append(value.as_str());
                s.append(")");
                s
            },
            Object::InfoList(_) => String::from_str("<info_list>"),
            Object::Array(_) => String::from_str("<array>"),
        }
    }
}

} // verus!
