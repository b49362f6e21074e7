//! The command line: flags, arguments, and the values that they stand for.

use vstd::prelude::*;

use crate::strings;
use crate::strings::{
    chars_of, find_char, parse_i64, parse_unsigned, push_decimal, same_text, starts_with,
    text_between,
};
use crate::value::{Id, IdView, Value, ValueView};

verus! {

/// How many bytes the cache of a server holds unless told otherwise.
pub const DEFAULT_CACHE_BYTES: usize = 268_435_456;

/// How long a worker holds a job.
pub const INDEX_LEASE_MS: u64 = 30_000;

/// How long a job that failed, or a worker after an error, waits.
pub const INDEX_RETRY_MS: u64 = 1_000;

/// How long a worker waits when there is no job.
pub const INDEX_IDLE_MS: u64 = 100;

/// How often missed notifications are looked for.
pub const INDEX_RECONCILE_MS: u64 = 30_000;

/// How often namespaces are maintained.
pub const MAINTENANCE_INTERVAL_MS: u64 = 60_000;

/// What a server does.
#[derive(Clone, Copy, Debug, PartialEq, Eq, Structural)]
pub enum ServeRole {
    /// Answers requests and indexes.
    All,
    /// Answers requests.
    Api,
}

/// The text of arguments.
pub open spec fn texts(args: Seq<String>) -> Seq<Seq<char>> {
    Seq::new(args.len(), |i: int| args[i]@)
}

/// One of some flags.
pub open spec fn is_one_of(text: Seq<char>, flags: Seq<&str>) -> bool {
    exists|i: int| 0 <= i < flags.len() && (#[trigger] flags[i])@ == text
}

fn one_of(text: &str, flags: &[&str]) -> (b: bool)
    ensures
        b == is_one_of(text@, flags@),
{
    let mut i: usize = 0;
    while i < flags.len()
        invariant
            i <= flags@.len(),
            forall|k: int| 0 <= k < i ==> (#[trigger] flags@[k])@ != text@,
        decreases flags@.len() - i,
    {
        if same_text(flags[i], text) {
            return true;
        }
        i = i + 1;
    }
    false
}

/// The argument at a position.
pub fn arg(args: &[String], i: usize) -> (r: Result<&str, String>)
    ensures
        match r {
            Ok(text) => i < args@.len() && text@ == args@[i as int]@,
            Err(m) => i >= args@.len() && m@ == "missing argument #"@ + strings::decimal(i as nat),
        },
{
    if i < args.len() {
        Ok(args[i].as_str())
    } else {
        let mut text = "missing argument #".to_owned();
        push_decimal(&mut text, i as u64);
        Err(text)
    }
}

/// The first position, from `i` on, at which a flag stands; the number of arguments
/// if it stands nowhere.
pub open spec fn flag_position(args: Seq<Seq<char>>, flag: Seq<char>, i: int) -> int
    decreases args.len() - i,
{
    if i >= args.len() {
        args.len() as int
    } else if args[i] == flag {
        i
    } else {
        flag_position(args, flag, i + 1)
    }
}

fn find_flag(args: &[String], flag: &str) -> (i: usize)
    ensures
        i == flag_position(texts(args@), flag@, 2) || (args@.len() < 2 && i == 2),
        i < args@.len() ==> i >= 2,
        i >= args@.len() ==> flag_position(texts(args@), flag@, 2) == args@.len(),
{
    let mut i: usize = 2;
    while i < args.len()
        invariant
            2 <= i,
            i <= args@.len() || i == 2,
            flag_position(texts(args@), flag@, 2) == flag_position(
                texts(args@),
                flag@,
                i as int,
            ),
        decreases args@.len() - i,
    {
        if same_text(args[i].as_str(), flag) {
            return i;
        }
        i = i + 1;
    }
    i
}

/// Whether a flag is given.
pub fn has_flag(args: &[String], flag: &str) -> (b: bool)
    ensures
        b == (flag_position(texts(args@), flag@, 2) < args@.len()),
{
    find_flag(args, flag) < args.len()
}

/// The value of a flag: the argument behind the first place where it stands.
pub fn flag_value<'a>(args: &'a [String], flag: &str) -> (r: Result<Option<&'a str>, String>)
    ensures
        ({
            let i = flag_position(texts(args@), flag@, 2);
            if i >= args@.len() {
                r is Ok && r->Ok_0 is None
            } else if i + 1 < args@.len() {
                r is Ok && r->Ok_0 is Some && r->Ok_0->Some_0@ == args@[i + 1]@
            } else {
                r is Err && r->Err_0@ == flag@ + " requires a value"@
            }
        }),
{
    let i = find_flag(args, flag);
    if i >= args.len() {
        return Ok(None);
    }
    if args.len() - i > 1 {
        return Ok(Some(args[i + 1].as_str()));
    }
    let mut text = flag.to_owned();
    text.append(" requires a value");
    Err(text)
}

/// What a server is told to do; everything, if it is not told.
pub fn serve_role(args: &[String]) -> (r: Result<ServeRole, String>)
    ensures
        ({
            let i = flag_position(texts(args@), "--role"@, 2);
            if i >= args@.len() {
                r == Ok::<ServeRole, String>(ServeRole::All)
            } else if i + 1 >= args@.len() {
                r is Err && r->Err_0@ == "--role"@ + " requires a value"@
            } else if args@[i + 1]@ == "all"@ {
                r == Ok::<ServeRole, String>(ServeRole::All)
            } else if args@[i + 1]@ == "api"@ {
                r == Ok::<ServeRole, String>(ServeRole::Api)
            } else {
                r is Err && r->Err_0@ == "unknown serve role '"@ + args@[i + 1]@
                    + "', expected all or api"@
            }
        }),
{
    let value = match flag_value(args, "--role") {
        Ok(value) => value,
        Err(e) => return Err(e),
    };
    match value {
        None => Ok(ServeRole::All),
        Some(role) => {
            if same_text(role, "all") {
                return Ok(ServeRole::All);
            }
            if same_text(role, "api") {
                proof {
                    reveal_strlit("all");
                    reveal_strlit("api");
                    assert("all"@[1] != "api"@[1]);
                }
                return Ok(ServeRole::Api);
            }
            let mut text = "unknown serve role '".to_owned();
            text.append(role);
            text.append("', expected all or api");
            Err(text)
        },
    }
}

/// The arguments, from position `i` on, that are neither flags nor their values;
/// none if a flag lacks its value.
pub open spec fn positionals(
    args: Seq<Seq<char>>,
    with_value: Seq<&str>,
    valueless: Seq<&str>,
    i: int,
) -> Option<Seq<Seq<char>>>
    decreases args.len() - i,
{
    if i >= args.len() {
        Some(Seq::empty())
    } else if is_one_of(args[i], with_value) {
        if i + 1 >= args.len() {
            None
        } else {
            positionals(args, with_value, valueless, i + 2)
        }
    } else if is_one_of(args[i], valueless) {
        positionals(args, with_value, valueless, i + 1)
    } else {
        match positionals(args, with_value, valueless, i + 1) {
            None => None,
            Some(rest) => Some(seq![args[i]] + rest),
        }
    }
}

/// The text of slices.
pub open spec fn slices(list: Seq<&str>) -> Seq<Seq<char>> {
    Seq::new(list.len(), |i: int| list[i]@)
}

/// The arguments behind the command that are neither flags nor their values.
pub fn positional_args<'a>(
    args: &'a [String],
    flags_with_value: &[&str],
    valueless_flags: &[&str],
) -> (r: Result<Vec<&'a str>, String>)
    ensures
        match positionals(texts(args@), flags_with_value@, valueless_flags@, 2) {
            Some(list) => r is Ok && slices(r->Ok_0@) == list,
            None => r is Err && r->Err_0@ == args@.last()@ + " requires a value"@,
        },
{
    let ghost all = texts(args@);
    let ghost goal = positionals(all, flags_with_value@, valueless_flags@, 2);
    let mut out: Vec<&'a str> = Vec::new();
    let mut i: usize = 2;
    assert(slices(out@) =~= Seq::empty());
    proof {
        let rest = positionals(all, flags_with_value@, valueless_flags@, 2);
        if rest is Some {
            assert(slices(out@) + rest->Some_0 =~= rest->Some_0);
        }
    }
    while i < args.len()
        invariant
            all == texts(args@),
            goal == positionals(all, flags_with_value@, valueless_flags@, 2),
            i <= args@.len() || i == 2,
            match positionals(all, flags_with_value@, valueless_flags@, i as int) {
                Some(rest) => goal == Some(slices(out@) + rest),
                None => goal is None,
            },
        decreases args@.len() - i,
    {
        let value: &'a str = args[i].as_str();
        assert(all[i as int] == value@);
        if one_of(value, flags_with_value) {
            if args.len() - i <= 1 {
                let mut text = value.to_owned();
                text.append(" requires a value");
                return Err(text);
            }
            i = i + 2;
        } else if one_of(value, valueless_flags) {
            i = i + 1;
        } else {
            let ghost before = out@;
            out.push(value);
            proof {
                let rest = positionals(all, flags_with_value@, valueless_flags@, i + 1);
                assert(slices(out@) =~= slices(before).push(value@));
                if rest is Some {
                    assert(slices(before) + (seq![value@] + rest->Some_0) =~= slices(out@)
                        + rest->Some_0);
                }
            }
            i = i + 1;
        }
    }
    proof {
        assert(slices(out@) + Seq::<Seq<char>>::empty() =~= slices(out@));
    }
    Ok(out)
}

/// The key that a text stands for: a number if it is one.
pub open spec fn id_of(token: Seq<char>) -> IdView {
    match strings::unsigned_value(token) {
        Some(n) => if n <= u64::MAX {
            IdView::U64(n as u64)
        } else {
            IdView::String(token)
        },
        None => IdView::String(token),
    }
}

/// The key that a text stands for.
pub fn parse_id(token: &str) -> (id: Id)
    ensures
        id@ == id_of(token@),
{
    match parse_unsigned(token, u64::MAX) {
        Some(n) => Id::U64(n),
        None => Id::String(token.to_owned()),
    }
}

/// The value that a text stands for: a whole number, a number, a truth value, or
/// else the text itself. `number` has the bits of the number that it reads as, if it
/// does.
pub fn parse_value(token: &str, number: Option<u64>) -> (v: Value)
    ensures
        ({
            let whole = strings::signed_value(token@);
            if whole is Some && i64::MIN <= whole->Some_0 <= i64::MAX {
                v@ == ValueView::Int(whole->Some_0 as i64)
            } else if number is Some {
                v@ == ValueView::Float(number->Some_0)
            } else if token@ == "true"@ {
                v@ == ValueView::Bool(true)
            } else if token@ == "false"@ {
                v@ == ValueView::Bool(false)
            } else {
                v@ == ValueView::String(token@)
            }
        }),
{
    if let Some(n) = parse_i64(token) {
        return Value::Int(n);
    }
    if let Some(bits) = number {
        return Value::Float(bits);
    }
    if same_text(token, "true") {
        return Value::Bool(true);
    }
    if same_text(token, "false") {
        return Value::Bool(false);
    }
    Value::String(token.to_owned())
}

/// Splits an assignment at its first equals sign.
pub fn split_pair(pair: &str) -> (r: Result<(String, String), String>)
    ensures
        ({
            let i = strings::first_char(pair@, '=');
            match r {
                Ok((k, v)) => i < pair@.len() && k@ == pair@.take(i) && v@ == pair@.skip(i + 1),
                Err(m) => i >= pair@.len() && m@ == "expected key=value, got '"@ + pair@ + "'"@,
            }
        }),
{
    let chars = chars_of(pair);
    let i = find_char(&chars, '=');
    if i < chars.len() {
        let k = text_between(&chars, 0, i);
        let v = text_between(&chars, i + 1, chars.len());
        assert(k@ =~= pair@.take(i as int));
        assert(v@ =~= pair@.skip(i + 1));
        Ok((k, v))
    } else {
        let mut text = "expected key=value, got '".to_owned();
        text.append(pair);
        text.append("'");
        Err(text)
    }
}

/// Whether a location is a bucket.
pub fn is_bucket(location: &str) -> (b: bool)
    ensures
        b == strings::has_prefix(location@, "s3://"@),
{
    starts_with(location, "s3://")
}

/// A flag is found where it first stands, and nowhere if it does not stand there.
pub proof fn law_first_flag_is_found(args: Seq<Seq<char>>, flag: Seq<char>, i: int)
    requires
        0 <= i <= args.len(),
    ensures
        i <= flag_position(args, flag, i) <= args.len(),
        flag_position(args, flag, i) < args.len() ==> args[flag_position(args, flag, i)] == flag,
        forall|k: int| i <= k < flag_position(args, flag, i) ==> #[trigger] args[k] != flag,
    decreases args.len() - i,
{
    if i < args.len() && args[i] != flag {
        law_first_flag_is_found(args, flag, i + 1);
    }
}

proof fn lemma_arguments_behind(
    front: Seq<Seq<char>>,
    args: Seq<Seq<char>>,
    with_value: Seq<&str>,
    valueless: Seq<&str>,
    i: int,
)
    requires
        0 <= i,
    ensures
        positionals(front + args, with_value, valueless, front.len() + i) == positionals(
            args,
            with_value,
            valueless,
            i,
        ),
    decreases args.len() - i,
{
    if i < args.len() {
        assert((front + args)[front.len() + i] == args[i]);
        lemma_arguments_behind(front, args, with_value, valueless, i + 1);
        if i + 1 < args.len() {
            lemma_arguments_behind(front, args, with_value, valueless, i + 2);
        }
    }
}

/// Of arguments, a flag goes, and so does the value of one that has a value; every other
/// one stays, in its order. A flag at the end that lacks its value is refused.
pub proof fn law_flags_are_left_out(
    args: Seq<Seq<char>>,
    with_value: Seq<&str>,
    valueless: Seq<&str>,
    first: Seq<char>,
    given: Seq<char>,
)
    ensures
        is_one_of(first, with_value) ==> positionals(
            seq![first, given] + args,
            with_value,
            valueless,
            0,
        ) == positionals(args, with_value, valueless, 0),
        is_one_of(first, with_value) ==> positionals(seq![first], with_value, valueless, 0) is None,
        is_one_of(first, valueless) && !is_one_of(first, with_value) ==> positionals(
            seq![first] + args,
            with_value,
            valueless,
            0,
        ) == positionals(args, with_value, valueless, 0),
        !is_one_of(first, valueless) && !is_one_of(first, with_value) && positionals(
            args,
            with_value,
            valueless,
            0,
        ) is Some ==> positionals(seq![first] + args, with_value, valueless, 0) == Some(
            seq![first] + positionals(args, with_value, valueless, 0)->Some_0,
        ),
        (forall|k: int|
            0 <= k < args.len() ==> !is_one_of(#[trigger] args[k], with_value) && !is_one_of(
                args[k],
                valueless,
            )) ==> positionals(args, with_value, valueless, 0) == Some(args),
{
    lemma_arguments_behind(seq![first, given], args, with_value, valueless, 0);
    lemma_arguments_behind(seq![first], args, with_value, valueless, 0);
    assert((seq![first, given] + args)[0] == first);
    assert((seq![first] + args)[0] == first);
    assert(seq![first][0] == first);
    if forall|k: int|
        0 <= k < args.len() ==> !is_one_of(#[trigger] args[k], with_value) && !is_one_of(
            args[k],
            valueless,
        ) {
        lemma_plain_arguments(args, with_value, valueless, 0);
        assert(args.skip(0) =~= args);
    }
}

proof fn lemma_plain_arguments(
    args: Seq<Seq<char>>,
    with_value: Seq<&str>,
    valueless: Seq<&str>,
    i: int,
)
    requires
        0 <= i <= args.len(),
        forall|k: int|
            0 <= k < args.len() ==> !is_one_of(#[trigger] args[k], with_value) && !is_one_of(
                args[k],
                valueless,
            ),
    ensures
        positionals(args, with_value, valueless, i) == Some(args.skip(i)),
    decreases args.len() - i,
{
    if i < args.len() {
        lemma_plain_arguments(args, with_value, valueless, i + 1);
        assert(seq![args[i]] + args.skip(i + 1) =~= args.skip(i));
    } else {
        assert(args.skip(i) =~= Seq::empty());
    }
}

/// The digits of a number stand for the key that is this number, and a text with anything
/// but digits behind its first character for the key that is this text.
pub proof fn law_keys_are_numbers_where_they_can_be(n: u64, token: Seq<char>, i: int)
    requires
        0 < i < token.len(),
        !('0' <= token[i] <= '9'),
    ensures
        id_of(strings::decimal(n as nat)) == IdView::U64(n),
        id_of(token) == IdView::String(token),
        id_of(Seq::empty()) == IdView::String(Seq::empty()),
{
    strings::law_decimal_reads_back(n as nat);
    let digits = strings::unsigned_digits(token);
    if digits.len() == token.len() {
        assert(digits[i] == token[i]);
        lemma_no_number(digits, i);
    } else {
        assert(digits[i - 1] == token[i]);
        lemma_no_number(digits, i - 1);
    }
}

proof fn lemma_no_number(s: Seq<char>, i: int)
    requires
        0 <= i < s.len(),
        !('0' <= s[i] <= '9'),
    ensures
        strings::digits_value(s) is None,
    decreases s.len(),
{
    if i < s.len() - 1 {
        lemma_no_number(s.drop_last(), i);
    }
}

} // verus!
