//! Item records from their JSON form: an array of objects with the members
//! `id`, `name`, `recipeType`, `result` and `recipe`, the last an array of
//! objects with the members `value` and `amount`.

use crate::decimal::is_digit;
use crate::item::{IngredientRecord, IngredientRecordView, ItemRecord, ItemRecordView};
use vstd::prelude::*;

verus! {

/// `json::JsonValue`, a JSON value. Nothing of its inside is known here: it
/// is read through the functions below.
#[verifier::external_type_specification]
#[verifier::external_body]
pub struct ExJsonValue(json::JsonValue);

/// `json::Error`, what `json::parse` finds wrong with a text. It is only
/// told apart from success.
#[verifier::external_type_specification]
#[verifier::external_body]
pub struct ExJsonError(json::Error);

/// What `json::parse` makes of a text: the value, if the text is JSON.
pub uninterp spec fn parsed(text: Seq<char>) -> Option<json::JsonValue>;

/// What `JsonValue::members` goes through: the members of an array in
/// order, and nothing for any other value.
pub uninterp spec fn members_of(value: json::JsonValue) -> Seq<json::JsonValue>;

/// What indexing a `JsonValue` by a key gives: the member of an object
/// under the key, and null where the object has no such member and for any
/// other value.
pub uninterp spec fn field_of(value: json::JsonValue, key: Seq<char>) -> json::JsonValue;

/// What `JsonValue::as_str` gives: the text of a string, and nothing for
/// any other value.
pub uninterp spec fn string_of(value: json::JsonValue) -> Option<Seq<char>>;

/// What `JsonValue::as_u32` gives: the number that the value holds where
/// it takes it for one of 32 bits without a sign, and nothing otherwise.
pub uninterp spec fn number_of(value: json::JsonValue) -> Option<u32>;

/// The greatest number of decimal digits in a row that a text may hold to
/// be handed to `json::parse`. The parser counts the digits of a fraction
/// in 16 bits with a sign, and gives up with a panic where a fraction has
/// more digits than that count holds.
pub const DIGIT_RUN_LIMIT: usize = 32767;

/// Every character of the text is a decimal digit.
pub open spec fn all_digits(text: Seq<char>) -> bool {
    forall|i: int| 0 <= i < text.len() ==> is_digit(#[trigger] text[i])
}

/// Nowhere in the text do more than `limit` decimal digits stand in a row.
pub open spec fn digit_runs_within(text: Seq<char>, limit: nat) -> bool {
    forall|from: int|
        0 <= from && from + limit + 1 <= text.len() ==> !all_digits(
            #[trigger] text.subrange(from, from + limit + 1),
        )
}

/// Whether nowhere in the text more decimal digits stand in a row than
/// [`DIGIT_RUN_LIMIT`].
pub fn digit_runs_fit(text: &str) -> (fit: bool)
    ensures
        fit == digit_runs_within(text@, DIGIT_RUN_LIMIT as nat),
{
    let mut run: usize = 0;
    for ch in it: text.chars()
        invariant
            it.seq() == text@,
            run <= DIGIT_RUN_LIMIT,
            run <= it.index(),
            all_digits(text@.subrange(it.index() - run, it.index())),
            it.index() - run > 0 ==> !is_digit(text@[it.index() - run - 1]),
            forall|from: int|
                0 <= from && from + DIGIT_RUN_LIMIT + 1 <= it.index() ==> !all_digits(
                    #[trigger] text@.subrange(from, from + DIGIT_RUN_LIMIT + 1),
                ),
    {
        let ghost at = it.index();
        let ghost start = at - run;
        assert(text@[at] == ch);
        if '0' <= ch && ch <= '9' {
            proof {
                let grown = text@.subrange(start, at + 1);
                assert forall|i: int| 0 <= i < grown.len() implies is_digit(
                    #[trigger] grown[i],
                ) by {
                    if i < run {
                        assert(text@.subrange(start, at)[i] == grown[i]);
                    }
                }
            }
            if run == DIGIT_RUN_LIMIT {
                proof {
                    assert(at < text@.len());
                    assert(all_digits(text@.subrange(start, start + DIGIT_RUN_LIMIT + 1)));
                }
                return false;
            }
            proof {
                assert forall|from: int|
                    0 <= from && from + DIGIT_RUN_LIMIT + 1 <= at + 1 implies !all_digits(
                    #[trigger] text@.subrange(from, from + DIGIT_RUN_LIMIT + 1),
                ) by {
                    if from + DIGIT_RUN_LIMIT + 1 == at + 1 {
                        let window = text@.subrange(from, from + DIGIT_RUN_LIMIT + 1);
                        assert(window[start - 1 - from] == text@[start - 1]);
                    }
                }
            }
            run += 1;
        } else {
            proof {
                assert forall|from: int|
                    0 <= from && from + DIGIT_RUN_LIMIT + 1 <= at + 1 implies !all_digits(
                    #[trigger] text@.subrange(from, from + DIGIT_RUN_LIMIT + 1),
                ) by {
                    if from + DIGIT_RUN_LIMIT + 1 == at + 1 {
                        let window = text@.subrange(from, from + DIGIT_RUN_LIMIT + 1);
                        assert(window[at - from] == text@[at]);
                    }
                }
            }
            run = 0;
        }
    }
    true
}

/// Calls `json::parse`, on a text in which no more than
/// [`DIGIT_RUN_LIMIT`] decimal digits stand in a row: on such a text the
/// parser ends, with a value or with an error. Believed of it: whether it
/// succeeds, and with which value, depends on the text alone.
#[verifier::external_body]
fn parse(text: &str) -> (result: Result<json::JsonValue, json::Error>)
    requires
        digit_runs_within(text@, DIGIT_RUN_LIMIT as nat),
    ensures
        match result {
            Ok(value) => parsed(text@) == Some(value),
            Err(_) => parsed(text@) is None,
        },
{
    json::parse(text)
}

/// Calls `JsonValue::members` and collects what it goes through. Believed
/// of it: which values these are depends on the value alone.
#[verifier::external_body]
fn members<'a>(value: &'a json::JsonValue) -> (items: Vec<&'a json::JsonValue>)
    ensures
        items@.len() == members_of(*value).len(),
        forall|i: int| 0 <= i < items@.len() ==> *(#[trigger] items@[i]) == members_of(*value)[i],
{
    value.members().collect()
}

/// Indexes a `JsonValue` by a key. Believed of it: what comes out depends
/// on the value and the key alone.
#[verifier::external_body]
fn field<'a>(value: &'a json::JsonValue, key: &str) -> (member: &'a json::JsonValue)
    ensures
        *member == field_of(*value, key@),
{
    &value[key]
}

/// Calls `JsonValue::as_str`. Believed of it: whether there is a text, and
/// which, depends on the value alone.
#[verifier::external_body]
fn as_text<'a>(value: &'a json::JsonValue) -> (text: Option<&'a str>)
    ensures
        match text {
            Some(text) => string_of(*value) == Some(text@),
            None => string_of(*value) is None,
        },
{
    value.as_str()
}

/// Calls `JsonValue::as_u32`. Believed of it: whether there is a number,
/// and which, depends on the value alone.
#[verifier::external_body]
fn as_count(value: &json::JsonValue) -> (count: Option<u32>)
    ensures
        count == number_of(*value),
{
    value.as_u32()
}

/// A member of a record or of one of its ingredient lines.
#[derive(Debug, Clone, Copy, PartialEq, Eq)]
pub enum Field {
    Name,
    Id,
    /// `value` in the ingredient line at this position.
    IngredientValue(usize),
    /// `amount` in the ingredient line at this position.
    IngredientAmount(usize),
    RecipeType,
    Result,
}

/// Why a text gives no records.
#[derive(Debug, Clone, Copy, PartialEq, Eq)]
pub enum SourceError {
    /// Somewhere in the text more decimal digits stand in a row than
    /// [`DIGIT_RUN_LIMIT`]: the text is not handed to the parser.
    DigitRun,
    /// The text is not JSON.
    Syntax,
    /// The record at this position lacks the member, or holds a value of
    /// another type there.
    Record(usize, Field),
}

/// The ingredient line that a value describes, or the member it lacks.
pub open spec fn line_of(value: json::JsonValue, k: int) -> Result<IngredientRecordView, Field> {
    match string_of(field_of(value, "value"@)) {
        None => Err(Field::IngredientValue(k as usize)),
        Some(id) => match number_of(field_of(value, "amount"@)) {
            None => Err(Field::IngredientAmount(k as usize)),
            Some(amount) => Ok((id, amount as nat)),
        },
    }
}

/// The position of the first value that describes no ingredient line, or
/// the number of values where each describes one.
pub open spec fn first_bad_line(values: Seq<json::JsonValue>) -> int
    decreases values.len(),
{
    if values.len() == 0 {
        0
    } else {
        let before = first_bad_line(values.drop_last());
        if before < values.len() - 1 || line_of(values.last(), values.len() - 1) is Err {
            before
        } else {
            values.len() as int
        }
    }
}

/// The record that a value describes, or the first member it lacks: the
/// name, the identifier, the members of each ingredient line in turn, the
/// recipe's kind, the yield.
pub open spec fn record_of(value: json::JsonValue) -> Result<ItemRecordView, Field> {
    let lines = members_of(field_of(value, "recipe"@));
    let bad = first_bad_line(lines);
    match string_of(field_of(value, "name"@)) {
        None => Err(Field::Name),
        Some(name) => match string_of(field_of(value, "id"@)) {
            None => Err(Field::Id),
            Some(id) => if bad < lines.len() {
                Err(line_of(lines[bad], bad)->Err_0)
            } else {
                match string_of(field_of(value, "recipeType"@)) {
                    None => Err(Field::RecipeType),
                    Some(recipe_type) => match number_of(field_of(value, "result"@)) {
                        None => Err(Field::Result),
                        Some(result) => Ok(
                            ItemRecordView {
                                id,
                                name,
                                recipe_type,
                                result: result as nat,
                                recipe: Seq::new(lines.len(), |k: int| line_of(lines[k], k)->Ok_0),
                            },
                        ),
                    },
                }
            },
        },
    }
}

/// What the first bad line is: every value before it describes a line,
/// and the value there, if there is one, does not.
proof fn lemma_first_bad_line(values: Seq<json::JsonValue>)
    ensures
        0 <= first_bad_line(values) <= values.len(),
        forall|k: int| 0 <= k < first_bad_line(values) ==> line_of(#[trigger] values[k], k) is Ok,
        first_bad_line(values) < values.len() ==> line_of(
            values[first_bad_line(values)],
            first_bad_line(values),
        ) is Err,
    decreases values.len(),
{
    if values.len() > 0 {
        lemma_first_bad_line(values.drop_last());
        assert forall|k: int| 0 <= k < values.len() - 1 implies values.drop_last()[k]
            == values[k] by {}
    }
}

/// The first bad line is the only position with what
/// [`lemma_first_bad_line`] says of it.
proof fn lemma_first_bad_line_is(values: Seq<json::JsonValue>, at: int)
    requires
        0 <= at <= values.len(),
        forall|k: int| 0 <= k < at ==> line_of(#[trigger] values[k], k) is Ok,
        at < values.len() ==> line_of(values[at], at) is Err,
    ensures
        first_bad_line(values) == at,
{
    lemma_first_bad_line(values);
    let found = first_bad_line(values);
    if found < at {
        assert(line_of(values[found], found) is Ok);
    } else if at < found {
        assert(line_of(values[at], at) is Ok);
    }
}

/// The ingredient line at position `k` that a value describes.
fn line_from(value: &json::JsonValue, k: usize) -> (result: Result<IngredientRecord, Field>)
    ensures
        match result {
            Ok(line) => line_of(*value, k as int) == Ok::<IngredientRecordView, Field>(line@),
            Err(field) => line_of(*value, k as int) == Err::<IngredientRecordView, Field>(field),
        },
{
    let id = match as_text(field(value, "value")) {
        Some(id) => id,
        None => {
            return Err(Field::IngredientValue(k));
        },
    };
    let amount = match as_count(field(value, "amount")) {
        Some(amount) => amount,
        None => {
            return Err(Field::IngredientAmount(k));
        },
    };
    Ok(IngredientRecord { value: id.to_owned(), amount })
}

/// The record that a value describes.
pub fn record_from(value: &json::JsonValue) -> (result: Result<ItemRecord, Field>)
    ensures
        match result {
            Ok(record) => record_of(*value) == Ok::<ItemRecordView, Field>(record@),
            Err(field) => record_of(*value) == Err::<ItemRecordView, Field>(field),
        },
{
    let name = match as_text(field(value, "name")) {
        Some(name) => name,
        None => {
            return Err(Field::Name);
        },
    };
    let id = match as_text(field(value, "id")) {
        Some(id) => id,
        None => {
            return Err(Field::Id);
        },
    };
    let lines = members(field(value, "recipe"));
    let ghost values = members_of(field_of(*value, "recipe"@));
    let mut recipe: Vec<IngredientRecord> = Vec::new();
    let mut k: usize = 0;
    while k < lines.len()
        invariant
            values == members_of(field_of(*value, "recipe"@)),
            lines@.len() == values.len(),
            forall|i: int| 0 <= i < lines@.len() ==> *(#[trigger] lines@[i]) == values[i],
            k <= lines@.len(),
            recipe@.len() == k,
            forall|h: int|
                0 <= h < k ==> line_of(#[trigger] values[h], h) == Ok::<IngredientRecordView, Field>(
                    recipe@[h]@,
                ),
            string_of(field_of(*value, "name"@)) == Some(name@),
            string_of(field_of(*value, "id"@)) == Some(id@),
        decreases lines@.len() - k,
    {
        match line_from(lines[k], k) {
            Ok(line) => {
                recipe.push(line);
            },
            Err(field) => {
                proof {
                    lemma_first_bad_line_is(values, k as int);
                }
                return Err(field);
            },
        }
        k += 1;
    }
    proof {
        lemma_first_bad_line_is(values, k as int);
    }
    let recipe_type = match as_text(field(value, "recipeType")) {
        Some(recipe_type) => recipe_type,
        None => {
            return Err(Field::RecipeType);
        },
    };
    let result = match as_count(field(value, "result")) {
        Some(result) => result,
        None => {
            return Err(Field::Result);
        },
    };
    let record = ItemRecord {
        id: id.to_owned(),
        name: name.to_owned(),
        recipe_type: recipe_type.to_owned(),
        result,
        recipe,
    };
    proof {
        assert(record@.recipe =~= record_of(*value)->Ok_0.recipe);
    }
    Ok(record)
}

/// What reading the records of a document comes to: a record for each
/// member, or the first member that describes none, with the member of it
/// that is lacking.
pub open spec fn records_read(
    document: json::JsonValue,
    result: Result<Seq<ItemRecordView>, SourceError>,
) -> bool {
    let values = members_of(document);
    match result {
        Ok(records) => {
            &&& records.len() == values.len()
            &&& forall|i: int|
                0 <= i < values.len() ==> record_of(#[trigger] values[i]) == Ok::<
                    ItemRecordView,
                    Field,
                >(records[i])
        },
        Err(SourceError::Record(i, field)) => {
            &&& i < values.len()
            &&& forall|h: int| 0 <= h < i ==> record_of(#[trigger] values[h]) is Ok
            &&& record_of(values[i as int]) == Err::<ItemRecordView, Field>(field)
        },
        Err(SourceError::Syntax) => false,
        Err(SourceError::DigitRun) => false,
    }
}

/// The records as mathematical values, or the error.
pub open spec fn result_view(result: Result<Vec<ItemRecord>, SourceError>) -> Result<
    Seq<ItemRecordView>,
    SourceError,
> {
    match result {
        Ok(records) => Ok(Seq::new(records@.len(), |i: int| records@[i]@)),
        Err(error) => Err(error),
    }
}

/// The records that the members of a document describe.
pub fn records_from(document: &json::JsonValue) -> (result: Result<Vec<ItemRecord>, SourceError>)
    ensures
        records_read(*document, result_view(result)),
{
    let values = members(document);
    let mut records: Vec<ItemRecord> = Vec::new();
    let mut i: usize = 0;
    while i < values.len()
        invariant
            values@.len() == members_of(*document).len(),
            forall|h: int|
                0 <= h < values@.len() ==> *(#[trigger] values@[h]) == members_of(*document)[h],
            i <= values@.len(),
            records@.len() == i,
            forall|h: int|
                0 <= h < i ==> record_of(#[trigger] members_of(*document)[h]) == Ok::<
                    ItemRecordView,
                    Field,
                >(records@[h]@),
        decreases values@.len() - i,
    {
        match record_from(values[i]) {
            Ok(record) => {
                records.push(record);
            },
            Err(field) => {
                return Err(SourceError::Record(i, field));
            },
        }
        i += 1;
    }
    Ok(records)
}

/// What reading the records of a text comes to. A text with too long a run
/// of digits is refused unread; any other text is parsed, and is refused
/// where it is not JSON; the records are those of the document.
pub open spec fn text_read(
    text: Seq<char>,
    result: Result<Seq<ItemRecordView>, SourceError>,
) -> bool {
    if !digit_runs_within(text, DIGIT_RUN_LIMIT as nat) {
        result == Err::<Seq<ItemRecordView>, SourceError>(SourceError::DigitRun)
    } else {
        match parsed(text) {
            Some(document) => records_read(document, result),
            None => result == Err::<Seq<ItemRecordView>, SourceError>(SourceError::Syntax),
        }
    }
}

/// The records that a JSON text describes.
pub fn parse_records(text: &str) -> (result: Result<Vec<ItemRecord>, SourceError>)
    ensures
        text_read(text@, result_view(result)),
{
    if !digit_runs_fit(text) {
        return Err(SourceError::DigitRun);
    }
    match parse(text) {
        Ok(document) => records_from(&document),
        Err(_) => Err(SourceError::Syntax),
    }
}

} // verus!
