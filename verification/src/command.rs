//! Requests in their written form: `ID:COUNT` to craft, `#ID:COUNT` to
//! declare stock.

use crate::calculator::{CraftError, CraftingCalculator};
use crate::catalog::Catalog;
use crate::decimal::{decimal_value, is_decimal, is_digit, lemma_decimal_value_grows};
use crate::ledger::amount;
use crate::model::{add_extra_spec, craft_fits, craft_spec};
use crate::text::{chars_of, text_of};
use vstd::prelude::*;

verus! {

/// The character that marks a declaration of stock.
pub const STOCK_MARK: char = '#';

/// The character between the identifier and the count.
pub const SEPARATOR: char = ':';

/// A request as a mathematical value.
pub struct CommandView {
    pub id: Seq<char>,
    pub count: nat,
    pub in_stock: bool,
}

/// A request: craft `count` units of the item `id`, or, with `in_stock`,
/// declare them as stock.
#[derive(Debug, Clone, PartialEq, Eq)]
pub struct Command {
    pub id: String,
    pub count: u32,
    pub in_stock: bool,
}

impl View for Command {
    type V = CommandView;

    open spec fn view(&self) -> CommandView {
        CommandView { id: self.id@, count: self.count as nat, in_stock: self.in_stock }
    }
}

/// Why a written request is not one.
#[derive(Debug, Clone, Copy, PartialEq, Eq)]
pub enum ArgumentError {
    /// No separator stands between an identifier and a count.
    Malformed,
    /// What follows the separator is not a count.
    CountNotANumber,
}

/// Why a request was not carried out.
#[derive(Debug, Clone, Copy, PartialEq, Eq)]
pub enum InvocationError {
    /// The written form is not a request.
    Argument(ArgumentError),
    /// The catalog has no item of that identifier.
    ItemNotFound,
    /// A quantity on the way left 64 bits.
    Overflow,
}

/// The text without the plus sign that it may begin with.
pub open spec fn unsigned_part(text: Seq<char>) -> Seq<char> {
    if text.len() > 0 && text[0] == '+' {
        text.skip(1)
    } else {
        text
    }
}

/// The count that a text denotes: one or more decimal digits, after a plus
/// sign or without one, of a value that 32 bits hold.
pub open spec fn count_of(text: Seq<char>) -> Option<u32> {
    let digits = unsigned_part(text);
    if is_decimal(digits) && decimal_value(digits) <= u32::MAX {
        Some(decimal_value(digits) as u32)
    } else {
        None
    }
}

/// What a written request says: a leading stock mark makes it a
/// declaration of stock; what stands before the first separator is the
/// identifier, and what stands after it the count.
pub open spec fn parse_argument_spec(arg: Seq<char>) -> Result<CommandView, ArgumentError> {
    let in_stock = arg.len() > 0 && arg[0] == STOCK_MARK;
    let body = if in_stock {
        arg.skip(1)
    } else {
        arg
    };
    match body.index_of_first(SEPARATOR) {
        None => Err(ArgumentError::Malformed),
        Some(p) => match count_of(body.skip(p + 1)) {
            None => Err(ArgumentError::CountNotANumber),
            Some(count) => Ok(CommandView { id: body.take(p), count: count as nat, in_stock }),
        },
    }
}

/// The count that the characters from `from` on denote.
#[verifier::loop_isolation(false)]
fn parse_count(chars: &Vec<char>, from: usize) -> (count: Option<u32>)
    requires
        from <= chars@.len(),
    ensures
        count == count_of(chars@.skip(from as int)),
{
    let ghost text = chars@.skip(from as int);
    let signed = from < chars.len() && chars[from] == '+';
    let start = if signed {
        from + 1
    } else {
        from
    };
    let ghost digits = chars@.skip(start as int);
    proof {
        if signed {
            assert(text[0] == chars@[from as int]);
            assert(text.skip(1) == digits);
        } else if text.len() > 0 {
            assert(text[0] == chars@[from as int]);
        }
        assert(digits == unsigned_part(text));
    }
    if start == chars.len() {
        return None;
    }
    let mut value: u32 = 0;
    let mut i: usize = start;
    while i < chars.len()
        invariant
            start <= i <= chars@.len(),
            digits == chars@.skip(start as int),
            forall|h: int| 0 <= h < i - start ==> is_digit(#[trigger] digits[h]),
            value == decimal_value(digits.take(i - start)),
        decreases chars@.len() - i,
    {
        let c = chars[i];
        assert(digits[i - start] == c);
        if !('0' <= c && c <= '9') {
            assert(!is_digit(digits[i - start]));
            return None;
        }
        let digit = c as u32 - '0' as u32;
        proof {
            assert(is_digit(c));
            assert(digits.take(i - start + 1).drop_last() == digits.take(i - start));
            lemma_decimal_value_grows(digits, i - start + 1);
        }
        value = match value.checked_mul(10) {
            Some(tens) => match tens.checked_add(digit) {
                Some(next) => next,
                None => {
                    return None;
                },
            },
            None => {
                return None;
            },
        };
        i += 1;
    }
    proof {
        assert(digits.take(i - start) == digits);
    }
    Some(value)
}

/// Reads a written request.
#[verifier::loop_isolation(false)]
pub fn parse_argument(arg: &str) -> (result: Result<Command, ArgumentError>)
    ensures
        match result {
            Ok(command) => parse_argument_spec(arg@) == Ok::<CommandView, ArgumentError>(command@),
            Err(error) => parse_argument_spec(arg@) == Err::<CommandView, ArgumentError>(error),
        },
{
    let chars = chars_of(arg);
    let in_stock = chars.len() > 0 && chars[0] == STOCK_MARK;
    let start: usize = if in_stock {
        1
    } else {
        0
    };
    let ghost body = chars@.skip(start as int);
    let mut p: usize = start;
    while p < chars.len() && chars[p] != SEPARATOR
        invariant
            start <= p <= chars@.len(),
            body == chars@.skip(start as int),
            forall|h: int| 0 <= h < p - start ==> #[trigger] body[h] != SEPARATOR,
        decreases chars@.len() - p,
    {
        p += 1;
    }
    proof {
        assert(chars@.skip(0) == chars@);
        body.index_of_first_ensures(SEPARATOR);
        if p < chars.len() {
            assert(body[p - start] == SEPARATOR);
            assert(body.contains(SEPARATOR));
            assert(body.index_of_first(SEPARATOR) == Some(p - start));
            assert(body.skip(p - start + 1) == chars@.skip(p + 1));
            assert(body.take(p - start) == chars@.subrange(start as int, p as int));
        } else {
            if body.contains(SEPARATOR) {
                let h = choose|h: int| 0 <= h < body.len() && body[h] == SEPARATOR;
                assert(body[h] != SEPARATOR);
            }
        }
    }
    if p == chars.len() {
        return Err(ArgumentError::Malformed);
    }
    match parse_count(&chars, p + 1) {
        None => Err(ArgumentError::CountNotANumber),
        Some(count) => Ok(Command { id: text_of(&chars, start, p), count, in_stock }),
    }
}

/// What carrying out a request comes to.
pub open spec fn carried_out(
    catalog: &Catalog,
    before: &CraftingCalculator,
    command: CommandView,
    after: &CraftingCalculator,
    result: Result<(), InvocationError>,
) -> bool {
    if !catalog@.is_item_id(command.id) {
        result == Err::<(), InvocationError>(InvocationError::ItemNotFound) && after@ == before@
    } else {
        let item = choose|i: int| catalog@.has(i) && #[trigger] catalog@.items[i].id == command.id;
        if command.in_stock {
            if amount(before@.surplus, command.id) + command.count <= u64::MAX {
                result is Ok && after@ == add_extra_spec(before@, command.id, command.count)
            } else {
                result == Err::<(), InvocationError>(InvocationError::Overflow) && after@
                    == before@
            }
        } else {
            if craft_fits(catalog@, before@, item, command.count, u64::MAX as nat) {
                result is Ok && after@ == craft_spec(catalog@, before@, item, command.count)
            } else {
                result == Err::<(), InvocationError>(InvocationError::Overflow) && after@
                    == before@
            }
        }
    }
}

/// Carries out a request: looks the item up by its identifier, and crafts
/// the units or declares them as stock. Where the request cannot be carried
/// out, nothing changes.
pub fn carry_out(calculator: &mut CraftingCalculator, catalog: &Catalog, command: &Command) -> (result:
    Result<(), InvocationError>)
    requires
        old(calculator).wf(),
        catalog.wf(),
    ensures
        final(calculator).wf(),
        carried_out(catalog, old(calculator), command@, final(calculator), result),
{
    let item = match catalog.find(command.id.as_str()) {
        Some(item) => item,
        None => {
            return Err(InvocationError::ItemNotFound);
        },
    };
    proof {
        let chosen = choose|i: int| catalog@.has(i) && #[trigger] catalog@.items[i].id == command@.id;
        assert(catalog@.items[item as int].id == catalog@.items[chosen].id);
        assert(chosen == item);
    }
    let outcome = if command.in_stock {
        calculator.add_extra(catalog, item, command.count as u64)
    } else {
        calculator.craft(catalog, item, command.count as u64)
    };
    match outcome {
        Ok(_) => Ok(()),
        Err(CraftError::UnknownItem) => Err(InvocationError::ItemNotFound),
        Err(CraftError::Overflow) => Err(InvocationError::Overflow),
    }
}

/// Reads a written request and carries it out.
pub fn invoke(calculator: &mut CraftingCalculator, catalog: &Catalog, arg: &str) -> (result: Result<
    (),
    InvocationError,
>)
    requires
        old(calculator).wf(),
        catalog.wf(),
    ensures
        final(calculator).wf(),
        match parse_argument_spec(arg@) {
            Ok(command) => carried_out(catalog, old(calculator), command, final(calculator), result),
            Err(error) => result == Err::<(), InvocationError>(InvocationError::Argument(error))
                && final(calculator)@ == old(calculator)@,
        },
{
    match parse_argument(arg) {
        Ok(command) => carry_out(calculator, catalog, &command),
        Err(error) => Err(InvocationError::Argument(error)),
    }
}

} // verus!
