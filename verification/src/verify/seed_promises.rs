//! What saved runs promise, said of the bytes they are saved as.

use vstd::prelude::*;

use crate::raft::types::NodeId;
use crate::text;
use crate::verify::run::RunConfigView;
use crate::verify::seed;
use crate::verify::seed::FieldView;

verus! {

/// Every field is a line of its own: its name, an equals sign, its value and a
/// line feed, behind those before it.
pub proof fn fields_are_lines(fields: Seq<FieldView>, name: Seq<u8>, value: Seq<u8>)
    ensures
        seed::written(Seq::empty()) == Seq::<u8>::empty(),
        seed::written(fields.push(FieldView { name, value })) == seed::written(fields) + name
            + seq!['=' as u8] + value + seq!['\n' as u8],
{
    assert(fields.push(FieldView { name, value }).drop_last() =~= fields);
}

/// Whether the field at `i` has this name and this number for its value.
pub open spec fn says(fields: Seq<FieldView>, i: int, name: Seq<char>, number: u64) -> bool {
    &&& fields[i].name.len() == name.len()
    &&& forall|k: int| 0 <= k < name.len() ==> fields[i].name[k] == (#[trigger] name[k]) as u8
    &&& text::parsed(fields[i].value) == Some(number)
    &&& fields[i].value == text::digits(number as nat)
}

/// A run is saved with all that specifies it, each part under its name.
pub proof fn runs_are_saved_whole(number: u64, config: RunConfigView)
    ensures
        ({
            let fields = seed::fields_of(number, config);
            &&& fields.len() == 11
            &&& says(fields, 0, "seed"@, number)
            &&& fields[1].name.len() == "peers"@.len()
            &&& forall|k: int| 0 <= k < "peers"@.len() ==> fields[1].name[k] == (
            #[trigger] "peers"@[k]) as u8
            &&& fields[1].value == seed::joined(config.peers)
            &&& says(fields, 2, "election_timeout"@, config.election_timeout)
            &&& says(fields, 3, "heartbeat_interval"@, config.heartbeat_interval)
            &&& says(fields, 4, "min_delay"@, config.min_delay)
            &&& says(fields, 5, "max_delay"@, config.max_delay)
            &&& says(fields, 6, "apply_timeout_ticks"@, config.apply_timeout_ticks)
            &&& says(fields, 7, "client_count"@, config.client_count)
            &&& says(fields, 8, "total_ticks"@, config.total_ticks)
            &&& says(fields, 9, "submit_chance_percent"@, config.submit_chance_percent)
            &&& says(fields, 10, "fault_chance_percent"@, config.fault_chance_percent)
        }),
{
    text::digits_read_back(number);
    text::digits_read_back(config.election_timeout);
    text::digits_read_back(config.heartbeat_interval);
    text::digits_read_back(config.min_delay);
    text::digits_read_back(config.max_delay);
    text::digits_read_back(config.apply_timeout_ticks);
    text::digits_read_back(config.client_count);
    text::digits_read_back(config.total_ticks);
    text::digits_read_back(config.submit_chance_percent);
    text::digits_read_back(config.fault_chance_percent);
}

/// Ids are listed in decimal with commas between them.
pub proof fn ids_are_listed_with_commas(first: NodeId, rest: Seq<NodeId>)
    ensures
        seed::joined(Seq::empty()) == Seq::<u8>::empty(),
        seed::joined(seq![first]) == text::digits(first.0 as nat),
        rest.len() > 0 ==> seed::joined(seq![first] + rest) == text::digits(first.0 as nat) + seq![
            ',' as u8,
        ] + seed::joined(rest),
{
    assert((seq![first] + rest).drop_first() =~= rest);
}

/// A list of ids is read item by item; an empty item is passed over, and one
/// that is no number makes the list none.
pub proof fn ids_are_read_between_commas(item: Seq<u8>, rest: Seq<u8>)
    requires
        forall|i: int| 0 <= i < item.len() ==> (#[trigger] item[i]) != ',' as u8,
    ensures
        seed::split_ids(Seq::empty()) == Some(Seq::<NodeId>::empty()),
        item.len() > 0 ==> seed::split_ids(item) == match text::parsed(item) {
            Some(id) => Some(seq![NodeId(id)]),
            None => None,
        },
        seed::split_ids(item + seq![',' as u8] + rest) == match seed::split_ids(rest) {
            Some(others) => if item.len() == 0 {
                Some(others)
            } else {
                match text::parsed(item) {
                    Some(id) => Some(seq![NodeId(id)] + others),
                    None => None,
                }
            },
            None => None,
        },
{
    assert(seed::split_ids(Seq::empty()) == Some(Seq::<NodeId>::empty()));
    if item.len() > 0 {
        text::lemma_find_at(item, ',' as u8, 0, item.len() as int);
        assert(item.take(item.len() as int) =~= item);
        assert forall|id: u64| seq![NodeId(id)] + Seq::<NodeId>::empty() == #[trigger] seq![
            NodeId(id),
        ] by {
            assert(seq![NodeId(id)] + Seq::<NodeId>::empty() =~= seq![NodeId(id)]);
        }
    }
    let list = item + seq![',' as u8] + rest;
    assert forall|i: int| 0 <= i < item.len() implies (#[trigger] list[i]) != ',' as u8 by {
        assert(list[i] == item[i]);
    }
    text::lemma_find_at(list, ',' as u8, 0, item.len() as int);
    assert(list.take(item.len() as int) =~= item);
    assert(list.skip(item.len() as int + 1) =~= rest);
}

/// A saved run is read line by line, with a carriage return before a line feed
/// passed over; what stands before the first equals sign of a line is a name,
/// and what stands behind it its value. A line without one makes it none.
pub proof fn lines_are_read_as_fields(
    contents: Seq<u8>,
    from: int,
    end: int,
    at: int,
    fields: Seq<FieldView>,
)
    requires
        0 <= from < contents.len(),
        from <= end <= contents.len(),
        forall|i: int| from <= i < end ==> (#[trigger] contents[i]) != '\n' as u8,
        end == contents.len() || contents[end] == '\n' as u8,
        from <= at <= end,
        forall|i: int| from <= i < at ==> (#[trigger] contents[i]) != '=' as u8,
        at == end || contents[at] == '=' as u8,
    ensures
        ({
            let stop = if end < contents.len() && from < end && contents[end - 1] == '\r' as u8 {
                end - 1
            } else {
                end
            };
            seed::read_fields(contents, from, fields) == if at >= stop {
                None
            } else {
                seed::read_fields(
                    contents,
                    end + 1,
                    fields.push(
                        FieldView {
                            name: contents.subrange(from, at),
                            value: contents.subrange(at + 1, stop),
                        },
                    ),
                )
            }
        }),
        seed::read_fields(contents, contents.len() as int, fields) == Some(fields),
{
    text::lemma_find_at(contents, '\n' as u8, from, end);
    let stop = if end < contents.len() && from < end && contents[end - 1] == '\r' as u8 {
        end - 1
    } else {
        end
    };
    let line = contents.subrange(from, stop);
    assert(seed::line_at(contents, from, end) =~= line);
    let place = if at < stop {
        at - from
    } else {
        line.len() as int
    };
    assert forall|i: int| 0 <= i < place implies (#[trigger] line[i]) != '=' as u8 by {
        assert(line[i] == contents[from + i]);
    }
    if at < stop {
        assert(line[place] == contents[at]);
    }
    text::lemma_find_at(line, '=' as u8, 0, place);
    if at < stop {
        assert(line.take(place) =~= contents.subrange(from, at));
        assert(line.skip(place + 1) =~= contents.subrange(at + 1, stop));
    }
}

/// Where a name occurs more than once, its last value counts; where it does not
/// occur, there is none.
pub proof fn last_values_count(fields: Seq<FieldView>, name: Seq<u8>, i: int)
    requires
        0 <= i < fields.len() ==> fields[i].name == name,
        forall|j: int| i < j < fields.len() && 0 <= j ==> (#[trigger] fields[j]).name != name,
    ensures
        0 <= i < fields.len() ==> seed::value_of(fields, name) == Some(fields[i].value),
        i < 0 ==> seed::value_of(fields, name) is None,
    decreases fields.len(),
{
    if i < fields.len() && fields.len() > 0 && i != fields.len() - 1 {
        assert(fields[fields.len() - 1].name != name);
        let rest = fields.drop_last();
        assert forall|j: int| i < j < rest.len() && 0 <= j implies (#[trigger] rest[j]).name
            != name by {
            assert(rest[j] == fields[j]);
        }
        last_values_count(rest, name, i);
    }
}

/// What a name's last value says as a number.
pub open spec fn named(fields: Seq<FieldView>, name: Seq<char>) -> Option<u64> {
    match seed::value_of(fields, name.map_values(|c: char| c as u8)) {
        Some(value) => text::parsed(value),
        None => None,
    }
}

/// A run is read from its parts by their names, whatever the order of lines; it
/// is none exactly if a part is missing or malformed.
pub proof fn runs_are_read_by_name(contents: Seq<u8>, fields: Seq<FieldView>)
    requires
        seed::read_fields(contents, 0, Seq::empty()) == Some(fields),
    ensures
        ({
            let peers = match seed::value_of(fields, "peers"@.map_values(|c: char| c as u8)) {
                Some(value) => seed::split_ids(value),
                None => None,
            };
            match seed::decoded(contents) {
                Some((number, config)) => {
                    &&& named(fields, "seed"@) == Some(number)
                    &&& peers == Some(config.peers)
                    &&& named(fields, "election_timeout"@) == Some(config.election_timeout)
                    &&& named(fields, "heartbeat_interval"@) == Some(config.heartbeat_interval)
                    &&& named(fields, "min_delay"@) == Some(config.min_delay)
                    &&& named(fields, "max_delay"@) == Some(config.max_delay)
                    &&& named(fields, "apply_timeout_ticks"@) == Some(config.apply_timeout_ticks)
                    &&& named(fields, "client_count"@) == Some(config.client_count)
                    &&& named(fields, "total_ticks"@) == Some(config.total_ticks)
                    &&& named(fields, "submit_chance_percent"@) == Some(
                        config.submit_chance_percent,
                    )
                    &&& named(fields, "fault_chance_percent"@) == Some(config.fault_chance_percent)
                },
                None => named(fields, "seed"@) is None || peers is None || named(
                    fields,
                    "election_timeout"@,
                ) is None || named(fields, "heartbeat_interval"@) is None || named(
                    fields,
                    "min_delay"@,
                ) is None || named(fields, "max_delay"@) is None || named(
                    fields,
                    "apply_timeout_ticks"@,
                ) is None || named(fields, "client_count"@) is None || named(
                    fields,
                    "total_ticks"@,
                ) is None || named(fields, "submit_chance_percent"@) is None || named(
                    fields,
                    "fault_chance_percent"@,
                ) is None,
            }
        }),
{
    assert(text::ascii("seed"@) =~= "seed"@.map_values(|c: char| c as u8));
    assert(text::ascii("peers"@) =~= "peers"@.map_values(|c: char| c as u8));
    assert(text::ascii("election_timeout"@) =~= "election_timeout"@.map_values(|c: char| c as u8));
    assert(text::ascii("heartbeat_interval"@) =~= "heartbeat_interval"@.map_values(
        |c: char| c as u8,
    ));
    assert(text::ascii("min_delay"@) =~= "min_delay"@.map_values(|c: char| c as u8));
    assert(text::ascii("max_delay"@) =~= "max_delay"@.map_values(|c: char| c as u8));
    assert(text::ascii("apply_timeout_ticks"@) =~= "apply_timeout_ticks"@.map_values(
        |c: char| c as u8,
    ));
    assert(text::ascii("client_count"@) =~= "client_count"@.map_values(|c: char| c as u8));
    assert(text::ascii("total_ticks"@) =~= "total_ticks"@.map_values(|c: char| c as u8));
    assert(text::ascii("submit_chance_percent"@) =~= "submit_chance_percent"@.map_values(
        |c: char| c as u8,
    ));
    assert(text::ascii("fault_chance_percent"@) =~= "fault_chance_percent"@.map_values(
        |c: char| c as u8,
    ));
}

/// Numbers are written in decimal, with no zero in front; a digit more stands
/// for ten times as much and the digit.
pub proof fn numbers_are_written_in_decimal(n: nat, digit: u8)
    requires
        digit < 10,
    ensures
        n < 10 ==> text::digits(n) == seq![('0' as u8 + n) as u8],
        n > 0 ==> text::digits(n * 10 + digit as nat) == text::digits(n).push(
            ('0' as u8 + digit) as u8,
        ),
{
    if n > 0 {
        let more = n * 10 + digit as nat;
        assert(more / 10 == n);
        assert(more % 10 == digit as nat);
    }
}

/// A number is read from digits, one or more, with a plus sign in front or not;
/// anything else is none, and so is what does not fit in 64 bits.
pub proof fn only_decimal_numbers_are_read(digits: Seq<u8>, digit: u8, other: Seq<u8>, i: int)
    requires
        forall|k: int| 0 <= k < digits.len() ==> '0' as u8 <= (#[trigger] digits[k]) <= '9' as u8,
        '0' as u8 <= digit <= '9' as u8,
        0 <= i < other.len(),
        !('0' as u8 <= other[i] <= '9' as u8),
        i > 0 || other[i] != '+' as u8,
    ensures
        text::parsed(Seq::empty()) is None,
        text::parsed(seq!['+' as u8]) is None,
        text::parsed(other) is None,
        text::parsed(seq![digit]) == Some((digit - '0' as u8) as u64),
        digits.len() > 0 ==> text::parsed(seq!['+' as u8] + digits) == text::parsed(digits),
        digits.len() > 0 ==> match text::parsed(digits) {
            Some(n) => text::parsed(digits.push(digit)) == if n * 10 + (digit - '0' as u8)
                <= u64::MAX {
                Some((n * 10 + (digit - '0' as u8)) as u64)
            } else {
                None
            },
            None => text::parsed(digits.push(digit)) is None,
        },
{
    assert(seq!['+' as u8].skip(1) =~= Seq::empty());
    if other[0] == '+' as u8 {
        assert(other.skip(1)[i - 1] == other[i]);
    }
    let one = seq![digit];
    assert(one.drop_last() =~= Seq::empty());
    assert(text::value(one.drop_last()) == 0);
    assert((seq!['+' as u8] + digits).skip(1) =~= digits);
    if digits.len() > 0 {
        assert('0' as u8 <= digits[0] <= '9' as u8);
        let more = digits.push(digit);
        assert(more.drop_last() =~= digits);
        assert(more[0] == digits[0]);
        assert forall|k: int| 0 <= k < more.len() implies '0' as u8 <= (#[trigger] more[k])
            <= '9' as u8 by {
            if k < digits.len() {
                assert(more[k] == digits[k]);
            }
        }
        assert(text::value(more) == text::value(digits) * 10 + (digit - 48));
    }
}

} // verus!
