//! A seed and its configuration as text, enough to reproduce a run: one
//! `name=value` line each.

use vstd::prelude::*;

use crate::kv::codec::copy_range;
use crate::kv::order::equal_bytes;
use crate::raft::types::NodeId;
use crate::text;
use crate::text::{ascii_bytes, find_byte, parse_decimal, push_decimal};
use crate::verify::run::{RunConfig, RunConfigView};

verus! {

/// A name and its value.
#[verifier::ext_equal]
pub struct FieldView {
    pub name: Seq<u8>,
    pub value: Seq<u8>,
}

/// Ids as decimal numbers with commas between them.
pub open spec fn joined(peers: Seq<NodeId>) -> Seq<u8>
    decreases peers.len(),
{
    if peers.len() == 0 {
        Seq::empty()
    } else if peers.len() == 1 {
        text::digits(peers[0].0 as nat)
    } else {
        text::digits(peers[0].0 as nat) + seq![44u8] + joined(peers.drop_first())
    }
}

/// The ids in a list of decimal numbers with commas between them; nothing if
/// one is malformed. Empty items are passed over.
pub open spec fn split_ids(list: Seq<u8>) -> Option<Seq<NodeId>>
    decreases list.len(),
{
    if list.len() == 0 {
        Some(Seq::empty())
    } else {
        let end = text::find_from(list, 44, 0);
        let item = list.take(end);
        let rest = if 0 <= end < list.len() {
            list.skip(end + 1)
        } else {
            Seq::empty()
        };
        match split_ids(rest) {
            Some(others) => if item.len() == 0 {
                Some(others)
            } else {
                match text::parsed(item) {
                    Some(id) => Some(seq![NodeId(id)] + others),
                    None => None,
                }
            },
            None => None,
        }
    }
}

/// The fields of a run, in the order they are written.
pub open spec fn fields_of(seed: u64, config: RunConfigView) -> Seq<FieldView> {
    seq![
        number("seed"@, seed),
        FieldView { name: text::ascii("peers"@), value: joined(config.peers) },
        number("election_timeout"@, config.election_timeout),
        number("heartbeat_interval"@, config.heartbeat_interval),
        number("min_delay"@, config.min_delay),
        number("max_delay"@, config.max_delay),
        number("apply_timeout_ticks"@, config.apply_timeout_ticks),
        number("client_count"@, config.client_count),
        number("total_ticks"@, config.total_ticks),
        number("submit_chance_percent"@, config.submit_chance_percent),
        number("fault_chance_percent"@, config.fault_chance_percent),
    ]
}

/// A field that holds a number.
pub open spec fn number(name: Seq<char>, value: u64) -> FieldView {
    FieldView { name: text::ascii(name), value: text::digits(value as nat) }
}

/// One line per field.
pub open spec fn written(fields: Seq<FieldView>) -> Seq<u8>
    decreases fields.len(),
{
    if fields.len() == 0 {
        Seq::empty()
    } else {
        written(fields.drop_last()) + fields.last().name + seq![61u8] + fields.last().value + seq![
            10u8,
        ]
    }
}

/// A line without the carriage return that its line feed may follow.
pub open spec fn line_at(contents: Seq<u8>, from: int, end: int) -> Seq<u8> {
    if end < contents.len() && from < end && contents[end - 1] == 13 {
        contents.subrange(from, end - 1)
    } else {
        contents.subrange(from, end)
    }
}

/// The fields in `contents` from `from` on, behind `fields`; nothing if a line
/// has no `=`.
pub open spec fn read_fields(contents: Seq<u8>, from: int, fields: Seq<FieldView>) -> Option<
    Seq<FieldView>,
>
    decreases contents.len() + 1 - from,
{
    if from >= contents.len() {
        Some(fields)
    } else {
        let end = text::find_from(contents, 10, from);
        let line = line_at(contents, from, end);
        let at = text::find_from(line, 61, 0);
        if at >= line.len() || !(from <= end <= contents.len()) {
            None
        } else {
            read_fields(
                contents,
                end + 1,
                fields.push(FieldView { name: line.take(at), value: line.skip(at + 1) }),
            )
        }
    }
}

/// The value of the last field of a name.
pub open spec fn value_of(fields: Seq<FieldView>, name: Seq<u8>) -> Option<Seq<u8>>
    decreases fields.len(),
{
    if fields.len() == 0 {
        None
    } else if fields.last().name == name {
        Some(fields.last().value)
    } else {
        value_of(fields.drop_last(), name)
    }
}

/// The number in the last field of a name.
pub open spec fn number_of(fields: Seq<FieldView>, name: Seq<char>) -> Option<u64> {
    match value_of(fields, text::ascii(name)) {
        Some(value) => text::parsed(value),
        None => None,
    }
}

/// The ids in the last field of a name.
pub open spec fn ids_of(fields: Seq<FieldView>, name: Seq<char>) -> Option<Seq<NodeId>> {
    match value_of(fields, text::ascii(name)) {
        Some(value) => split_ids(value),
        None => None,
    }
}

/// The run that fields specify; nothing if a field is missing or malformed.
pub open spec fn read_run(fields: Seq<FieldView>) -> Option<(u64, RunConfigView)> {
    match (
        number_of(fields, "seed"@),
        ids_of(fields, "peers"@),
        number_of(fields, "election_timeout"@),
        number_of(fields, "heartbeat_interval"@),
        number_of(fields, "min_delay"@),
        number_of(fields, "max_delay"@),
        number_of(fields, "apply_timeout_ticks"@),
        number_of(fields, "client_count"@),
        number_of(fields, "total_ticks"@),
        number_of(fields, "submit_chance_percent"@),
        number_of(fields, "fault_chance_percent"@),
    ) {
        (
            Some(seed),
            Some(peers),
            Some(election_timeout),
            Some(heartbeat_interval),
            Some(min_delay),
            Some(max_delay),
            Some(apply_timeout_ticks),
            Some(client_count),
            Some(total_ticks),
            Some(submit_chance_percent),
            Some(fault_chance_percent),
        ) => Some(
            (
                seed,
                RunConfigView {
                    peers,
                    election_timeout,
                    heartbeat_interval,
                    min_delay,
                    max_delay,
                    apply_timeout_ticks,
                    client_count,
                    total_ticks,
                    submit_chance_percent,
                    fault_chance_percent,
                },
            ),
        ),
        _ => None,
    }
}

/// The run that text specifies.
pub open spec fn decoded(contents: Seq<u8>) -> Option<(u64, RunConfigView)> {
    match read_fields(contents, 0, Seq::empty()) {
        Some(fields) => read_run(fields),
        None => None,
    }
}

/// Whether a field survives being written as a line: its name holds neither
/// `=` nor a line feed, its value no line feed nor a carriage return.
pub open spec fn is_plain(field: FieldView) -> bool {
    &&& forall|i: int|
        0 <= i < field.name.len() ==> (#[trigger] field.name[i]) != 61 && field.name[i] != 10
    &&& forall|i: int|
        0 <= i < field.value.len() ==> (#[trigger] field.value[i]) != 10 && field.value[i] != 13
}

/// A search stops at the first occurrence.
proof fn lemma_find_at(bytes: Seq<u8>, byte: u8, from: int, at: int)
    requires
        0 <= from <= at <= bytes.len(),
        at < bytes.len() ==> bytes[at] == byte,
        forall|i: int| from <= i < at ==> (#[trigger] bytes[i]) != byte,
    ensures
        text::find_from(bytes, byte, from) == at,
    decreases at - from,
{
    if from < at {
        lemma_find_at(bytes, byte, from + 1, at);
    }
}

proof fn lemma_written_prefix(fields: Seq<FieldView>, n: int)
    requires
        0 <= n <= fields.len(),
    ensures
        written(fields.take(n)).is_prefix_of(written(fields)),
    decreases fields.len() - n,
{
    if n == fields.len() {
        assert(fields.take(n) =~= fields);
    } else {
        lemma_written_prefix(fields, n + 1);
        assert(fields.take(n + 1).drop_last() =~= fields.take(n));
        let a = written(fields.take(n));
        let b = written(fields.take(n + 1));
        assert(b.take(a.len() as int) =~= a);
        let c = written(fields);
        assert(c.take(a.len() as int) =~= b.take(a.len() as int));
    }
}

/// Plain fields read back from where the first `n` of them end.
proof fn lemma_fields_read_back(fields: Seq<FieldView>, n: int)
    requires
        0 <= n <= fields.len(),
        forall|i: int| 0 <= i < fields.len() ==> is_plain(#[trigger] fields[i]),
    ensures
        read_fields(written(fields), written(fields.take(n)).len() as int, fields.take(n)) == Some(
            fields,
        ),
    decreases fields.len() - n,
{
    let contents = written(fields);
    let from = written(fields.take(n)).len() as int;
    lemma_written_prefix(fields, n);
    if n == fields.len() {
        assert(fields.take(n) =~= fields);
    } else {
        let field = fields[n];
        assert(is_plain(field));
        assert(fields.take(n + 1).drop_last() =~= fields.take(n));
        assert(fields.take(n + 1).last() == field);
        lemma_written_prefix(fields, n + 1);
        let upto = written(fields.take(n + 1));
        let line = field.name + seq![61u8] + field.value;
        let end = from + line.len();
        assert(upto =~= written(fields.take(n)) + line + seq![10u8]);
        assert(contents.take(upto.len() as int) =~= upto);
        assert forall|i: int| from <= i < end implies contents[i] == line[i - from] by {
            assert(contents[i] == upto[i]);
        }
        assert(contents[end] == upto[end]);
        lemma_find_at(contents, 10, from, end);
        assert(contents.subrange(from, end) =~= line);
        assert(contents[end - 1] == line[line.len() - 1]);
        assert(line_at(contents, from, end) == line);
        lemma_find_at(line, 61, 0, field.name.len() as int);
        assert(line.take(field.name.len() as int) =~= field.name);
        assert(line.skip(field.name.len() as int + 1) =~= field.value);
        assert(fields.take(n).push(field) =~= fields.take(n + 1));
        assert(upto.len() == end + 1);
        lemma_fields_read_back(fields, n + 1);
    }
}

/// Joined ids split back.
proof fn lemma_joined(peers: Seq<NodeId>)
    ensures
        split_ids(joined(peers)) == Some(peers),
        forall|i: int|
            0 <= i < joined(peers).len() ==> (#[trigger] joined(peers)[i]) == 44 || 48
                <= joined(peers)[i] <= 57,
    decreases peers.len(),
{
    if peers.len() == 0 {
        assert(peers =~= Seq::empty());
    } else {
        let head = text::digits(peers[0].0 as nat);
        text::lemma_digits(peers[0].0 as nat);
        text::digits_read_back(peers[0].0);
        let list = joined(peers);
        let tail = peers.drop_first();
        lemma_joined(tail);
        assert(peers =~= seq![peers[0]] + tail);
        if peers.len() == 1 {
            lemma_find_at(list, 44, 0, list.len() as int);
            assert(list.take(list.len() as int) =~= list);
            assert(tail =~= Seq::empty());
            assert(split_ids(Seq::<u8>::empty()) == Some(Seq::<NodeId>::empty()));
        } else {
            lemma_find_at(list, 44, 0, head.len() as int);
            assert(list.take(head.len() as int) =~= head);
            assert(list.skip(head.len() as int + 1) =~= joined(tail));
        }
    }
}

/// Whether a name is made of lower-case letters and underscores.
spec fn is_word(name: Seq<char>) -> bool {
    forall|i: int| 0 <= i < name.len() ==> 'a' <= (#[trigger] name[i]) <= 'z' || name[i] == '_'
}

/// A word's bytes hold no separator.
proof fn lemma_word(name: Seq<char>)
    requires
        is_word(name),
    ensures
        forall|i: int|
            0 <= i < text::ascii(name).len() ==> (#[trigger] text::ascii(name)[i]) != 61
                && text::ascii(name)[i] != 10,
{
    assert forall|i: int| 0 <= i < text::ascii(name).len() implies (#[trigger] text::ascii(name)[i])
        != 61 && text::ascii(name)[i] != 10 by {
        let c = name[i];
        assert(text::ascii(name)[i] == c as u8);
        assert('a' <= c <= 'z' || c == '_');
    }
}

/// Words of different length, or with a different second letter, have
/// different bytes.
proof fn lemma_different(a: Seq<char>, b: Seq<char>)
    requires
        is_word(a),
        is_word(b),
        a.len() != b.len() || (a.len() > 1 && a[1] != b[1]),
    ensures
        text::ascii(a) != text::ascii(b),
{
    if a.len() == b.len() {
        assert(text::ascii(a)[1] == a[1] as u8);
        assert(text::ascii(b)[1] == b[1] as u8);
    } else {
        assert(text::ascii(a).len() == a.len());
        assert(text::ascii(b).len() == b.len());
    }
}

/// The names of a run's fields.
spec fn field_names() -> Seq<Seq<char>> {
    seq![
        "seed"@,
        "peers"@,
        "election_timeout"@,
        "heartbeat_interval"@,
        "min_delay"@,
        "max_delay"@,
        "apply_timeout_ticks"@,
        "client_count"@,
        "total_ticks"@,
        "submit_chance_percent"@,
        "fault_chance_percent"@,
    ]
}

/// Every field's name is a word.
proof fn lemma_words()
    ensures
        is_word("seed"@),
        "seed"@.len() == 4,
        is_word("peers"@),
        "peers"@.len() == 5,
        is_word("election_timeout"@),
        "election_timeout"@.len() == 16,
        is_word("heartbeat_interval"@),
        "heartbeat_interval"@.len() == 18,
        is_word("min_delay"@),
        "min_delay"@.len() == 9,
        is_word("max_delay"@),
        "max_delay"@.len() == 9,
        is_word("apply_timeout_ticks"@),
        "apply_timeout_ticks"@.len() == 19,
        is_word("client_count"@),
        "client_count"@.len() == 12,
        is_word("total_ticks"@),
        "total_ticks"@.len() == 11,
        is_word("submit_chance_percent"@),
        "submit_chance_percent"@.len() == 21,
        is_word("fault_chance_percent"@),
        "fault_chance_percent"@.len() == 20,
        "min_delay"@[1] == 'i',
        "max_delay"@[1] == 'a',
{
    reveal_strlit("seed");
    assert("seed"@ =~= seq!['s', 'e', 'e', 'd']);
    reveal_strlit("peers");
    assert("peers"@ =~= seq!['p', 'e', 'e', 'r', 's']);
    reveal_strlit("election_timeout");
    assert("election_timeout"@ =~= seq!['e', 'l', 'e', 'c', 't', 'i', 'o', 'n', '_', 't', 'i', 'm', 'e', 'o', 'u', 't']);
    reveal_strlit("heartbeat_interval");
    assert("heartbeat_interval"@ =~= seq!['h', 'e', 'a', 'r', 't', 'b', 'e', 'a', 't', '_', 'i', 'n', 't', 'e', 'r', 'v', 'a', 'l']);
    reveal_strlit("min_delay");
    assert("min_delay"@ =~= seq!['m', 'i', 'n', '_', 'd', 'e', 'l', 'a', 'y']);
    reveal_strlit("max_delay");
    assert("max_delay"@ =~= seq!['m', 'a', 'x', '_', 'd', 'e', 'l', 'a', 'y']);
    reveal_strlit("apply_timeout_ticks");
    assert("apply_timeout_ticks"@ =~= seq!['a', 'p', 'p', 'l', 'y', '_', 't', 'i', 'm', 'e', 'o', 'u', 't', '_', 't', 'i', 'c', 'k', 's']);
    reveal_strlit("client_count");
    assert("client_count"@ =~= seq!['c', 'l', 'i', 'e', 'n', 't', '_', 'c', 'o', 'u', 'n', 't']);
    reveal_strlit("total_ticks");
    assert("total_ticks"@ =~= seq!['t', 'o', 't', 'a', 'l', '_', 't', 'i', 'c', 'k', 's']);
    reveal_strlit("submit_chance_percent");
    assert("submit_chance_percent"@ =~= seq!['s', 'u', 'b', 'm', 'i', 't', '_', 'c', 'h', 'a', 'n', 'c', 'e', '_', 'p', 'e', 'r', 'c', 'e', 'n', 't']);
    reveal_strlit("fault_chance_percent");
    assert("fault_chance_percent"@ =~= seq!['f', 'a', 'u', 'l', 't', '_', 'c', 'h', 'a', 'n', 'c', 'e', '_', 'p', 'e', 'r', 'c', 'e', 'n', 't']);
}

/// A value is found under its name, if no later field has that name.
proof fn lemma_value_at(fields: Seq<FieldView>, k: int, n: int)
    requires
        0 <= k < n <= fields.len(),
        forall|j: int| k < j < n ==> (#[trigger] fields[j]).name != fields[k].name,
    ensures
        value_of(fields.take(n), fields[k].name) == Some(fields[k].value),
    decreases n,
{
    assert(fields.take(n).last() == fields[n - 1]);
    assert(fields.take(n).drop_last() =~= fields.take(n - 1));
    if n - 1 > k {
        lemma_value_at(fields, k, n - 1);
    }
}

/// The value of each of a run's fields is found under its name.
proof fn lemma_values(seed: u64, config: RunConfigView)
    ensures
        ({
            let fields = fields_of(seed, config);
            &&& number_of(fields, "seed"@) == Some(seed)
            &&& ids_of(fields, "peers"@) == Some(config.peers)
            &&& number_of(fields, "election_timeout"@) == Some(config.election_timeout)
            &&& number_of(fields, "heartbeat_interval"@) == Some(config.heartbeat_interval)
            &&& number_of(fields, "min_delay"@) == Some(config.min_delay)
            &&& number_of(fields, "max_delay"@) == Some(config.max_delay)
            &&& number_of(fields, "apply_timeout_ticks"@) == Some(config.apply_timeout_ticks)
            &&& number_of(fields, "client_count"@) == Some(config.client_count)
            &&& number_of(fields, "total_ticks"@) == Some(config.total_ticks)
            &&& number_of(fields, "submit_chance_percent"@) == Some(config.submit_chance_percent)
            &&& number_of(fields, "fault_chance_percent"@) == Some(config.fault_chance_percent)
        }),
        forall|i: int|
            0 <= i < fields_of(seed, config).len() ==> is_plain(
                #[trigger] fields_of(seed, config)[i],
            ),
{
    let fields = fields_of(seed, config);
    lemma_words();
    lemma_joined(config.peers);
    text::digits_read_back(seed);
    text::lemma_digits(seed as nat);
    text::digits_read_back(config.election_timeout);
    text::lemma_digits(config.election_timeout as nat);
    text::digits_read_back(config.heartbeat_interval);
    text::lemma_digits(config.heartbeat_interval as nat);
    text::digits_read_back(config.min_delay);
    text::lemma_digits(config.min_delay as nat);
    text::digits_read_back(config.max_delay);
    text::lemma_digits(config.max_delay as nat);
    text::digits_read_back(config.apply_timeout_ticks);
    text::lemma_digits(config.apply_timeout_ticks as nat);
    text::digits_read_back(config.client_count);
    text::lemma_digits(config.client_count as nat);
    text::digits_read_back(config.total_ticks);
    text::lemma_digits(config.total_ticks as nat);
    text::digits_read_back(config.submit_chance_percent);
    text::lemma_digits(config.submit_chance_percent as nat);
    text::digits_read_back(config.fault_chance_percent);
    text::lemma_digits(config.fault_chance_percent as nat);
    assert(fields.len() == 11);
    assert forall|k: int| 0 <= k < 11 implies #[trigger] fields[k].name == text::ascii(
        field_names()[k],
    ) by {
    }
    assert forall|j: int, k: int| 0 <= k < j < 11 implies (#[trigger] fields[j]).name != (
    #[trigger] fields[k]).name by {
        lemma_different(field_names()[j], field_names()[k]);
    }
    assert(fields.take(11) =~= fields);
    lemma_value_at(fields, 0, 11);
    lemma_word("seed"@);
    lemma_value_at(fields, 1, 11);
    lemma_word("peers"@);
    lemma_value_at(fields, 2, 11);
    lemma_word("election_timeout"@);
    lemma_value_at(fields, 3, 11);
    lemma_word("heartbeat_interval"@);
    lemma_value_at(fields, 4, 11);
    lemma_word("min_delay"@);
    lemma_value_at(fields, 5, 11);
    lemma_word("max_delay"@);
    lemma_value_at(fields, 6, 11);
    lemma_word("apply_timeout_ticks"@);
    lemma_value_at(fields, 7, 11);
    lemma_word("client_count"@);
    lemma_value_at(fields, 8, 11);
    lemma_word("total_ticks"@);
    lemma_value_at(fields, 9, 11);
    lemma_word("submit_chance_percent"@);
    lemma_value_at(fields, 10, 11);
    lemma_word("fault_chance_percent"@);
}

/// Reading a run's text gives the seed and the configuration it was written
/// of.
pub proof fn seed_reads_back(seed: u64, config: RunConfigView)
    ensures
        decoded(written(fields_of(seed, config))) == Some((seed, config)),
{
    let fields = fields_of(seed, config);
    lemma_values(seed, config);
    assert(fields.take(0) =~= Seq::empty());
    assert(written(fields.take(0)) =~= Seq::empty());
    lemma_fields_read_back(fields, 0);
    assert((read_run(fields)->0).1 =~= config);
}

fn push_field(buffer: &mut Vec<u8>, name: &str, value: &[u8], Ghost(before): Ghost<Seq<FieldView>>)
    requires
        vstd::string::is_ascii(name),
        old(buffer)@ == written(before),
    ensures
        final(buffer)@ == written(
            before.push((FieldView { name: text::ascii(name@), value: value@ })),
        ),
{
    let ghost field = FieldView { name: text::ascii(name@), value: value@ };
    assert(before.push(field).drop_last() =~= before);
    buffer.extend_from_slice(ascii_bytes(name));
    buffer.push(61);
    buffer.extend_from_slice(value);
    buffer.push(10);
    assert(buffer@ =~= written(before) + field.name + seq![61u8] + field.value + seq![10u8]);
}

fn push_number(buffer: &mut Vec<u8>, name: &str, value: u64, Ghost(before): Ghost<Seq<FieldView>>)
    requires
        vstd::string::is_ascii(name),
        old(buffer)@ == written(before),
    ensures
        final(buffer)@ == written(before.push(number(name@, value))),
{
    let mut digits: Vec<u8> = Vec::new();
    push_decimal(&mut digits, value);
    assert(digits@ =~= text::digits(value as nat));
    push_field(buffer, name, &digits, Ghost(before));
}

fn join_ids(peers: &[NodeId]) -> (list: Vec<u8>)
    ensures
        list@ == joined(peers@),
{
    let mut list: Vec<u8> = Vec::new();
    let mut i: usize = 0;
    assert(peers@.skip(0) =~= peers@);
    while i < peers.len()
        invariant
            i <= peers@.len(),
            i < peers@.len() ==> joined(peers@) == list@ + joined(peers@.skip(i as int)),
            i == peers@.len() ==> joined(peers@) == list@,
        decreases peers.len() - i,
    {
        let ghost before = list@;
        let ghost rest = peers@.skip(i as int);
        assert(rest.drop_first() =~= peers@.skip(i + 1));
        assert(rest[0] == peers@[i as int]);
        push_decimal(&mut list, peers[i].0);
        if i + 1 < peers.len() {
            list.push(44);
            assert(before + joined(rest) =~= list@ + joined(peers@.skip(i + 1)));
        } else {
            assert(before + joined(rest) =~= list@);
        }
        i += 1;
    }
    list
}

/// The text that `seed` and `config` are saved as.
pub fn encode_seed(seed: u64, config: &RunConfig) -> (contents: Vec<u8>)
    ensures
        contents@ == written(fields_of(seed, config.deep_view())),
{
    let ghost fields = fields_of(seed, config.deep_view());
    proof {
        lemma_ascii_words();
        assert(fields.take(0) =~= Seq::empty());
        assert(fields.take(0).push(fields[0]) =~= fields.take(1));
        assert(fields.take(1).push(fields[1]) =~= fields.take(2));
        assert(fields.take(2).push(fields[2]) =~= fields.take(3));
        assert(fields.take(3).push(fields[3]) =~= fields.take(4));
        assert(fields.take(4).push(fields[4]) =~= fields.take(5));
        assert(fields.take(5).push(fields[5]) =~= fields.take(6));
        assert(fields.take(6).push(fields[6]) =~= fields.take(7));
        assert(fields.take(7).push(fields[7]) =~= fields.take(8));
        assert(fields.take(8).push(fields[8]) =~= fields.take(9));
        assert(fields.take(9).push(fields[9]) =~= fields.take(10));
        assert(fields.take(10).push(fields[10]) =~= fields.take(11));
        assert(fields.take(11) =~= fields);
    }
    let mut contents: Vec<u8> = Vec::new();
    assert(contents@ =~= written(fields.take(0)));
    push_number(&mut contents, "seed", seed, Ghost(fields.take(0)));
    let peers = join_ids(&config.peers);
    push_field(&mut contents, "peers", &peers, Ghost(fields.take(1)));
    push_number(&mut contents, "election_timeout", config.election_timeout, Ghost(fields.take(2)));
    push_number(&mut contents, "heartbeat_interval", config.heartbeat_interval, Ghost(fields.take(3)));
    push_number(&mut contents, "min_delay", config.min_delay, Ghost(fields.take(4)));
    push_number(&mut contents, "max_delay", config.max_delay, Ghost(fields.take(5)));
    push_number(&mut contents, "apply_timeout_ticks", config.apply_timeout_ticks, Ghost(fields.take(6)));
    push_number(&mut contents, "client_count", config.client_count, Ghost(fields.take(7)));
    push_number(&mut contents, "total_ticks", config.total_ticks, Ghost(fields.take(8)));
    push_number(&mut contents, "submit_chance_percent", config.submit_chance_percent, Ghost(fields.take(9)));
    push_number(&mut contents, "fault_chance_percent", config.fault_chance_percent, Ghost(fields.take(10)));
    contents
}

/// Every field's name is ASCII.
proof fn lemma_ascii_words()
    ensures
        vstd::string::is_ascii("seed"),
        vstd::string::is_ascii("peers"),
        vstd::string::is_ascii("election_timeout"),
        vstd::string::is_ascii("heartbeat_interval"),
        vstd::string::is_ascii("min_delay"),
        vstd::string::is_ascii("max_delay"),
        vstd::string::is_ascii("apply_timeout_ticks"),
        vstd::string::is_ascii("client_count"),
        vstd::string::is_ascii("total_ticks"),
        vstd::string::is_ascii("submit_chance_percent"),
        vstd::string::is_ascii("fault_chance_percent"),
{
    lemma_words();
}

struct Field {
    name: Vec<u8>,
    value: Vec<u8>,
}

spec fn view_field(field: Field) -> FieldView {
    FieldView { name: field.name@, value: field.value@ }
}

spec fn view_fields(fields: Seq<Field>) -> Seq<FieldView> {
    fields.map_values(|field: Field| view_field(field))
}

fn find_fields(contents: &[u8]) -> (fields: Option<Vec<Field>>)
    ensures
        match fields {
            Some(fields) => read_fields(contents@, 0, Seq::empty()) == Some(view_fields(fields@)),
            None => read_fields(contents@, 0, Seq::empty()) is None,
        },
{
    let mut fields: Vec<Field> = Vec::new();
    let mut from: usize = 0;
    assert(view_fields(fields@) =~= Seq::empty());
    while from < contents.len()
        invariant
            from <= contents@.len(),
            read_fields(contents@, 0, Seq::empty()) == read_fields(
                contents@,
                from as int,
                view_fields(fields@),
            ),
        decreases contents.len() - from,
    {
        let end: usize = find_byte(contents, 10, from);
        let line = if end < contents.len() && from < end && contents[end - 1] == 13 {
            copy_range(contents, from, end - 1)
        } else {
            copy_range(contents, from, end)
        };
        let at: usize = find_byte(&line, 61, 0);
        if at == line.len() {
            return None;
        }
        let name = copy_range(&line, 0, at);
        let value = copy_range(&line, at + 1, line.len());
        let ghost before = view_fields(fields@);
        let ghost field = FieldView { name: line@.take(at as int), value: line@.skip(at + 1) };
        assert(name@ =~= field.name);
        assert(value@ =~= field.value);
        fields.push(Field { name, value });
        assert(view_fields(fields@) =~= before.push(field));
        if end == contents.len() {
            assert(read_fields(contents@, end + 1, view_fields(fields@)) == Some(
                view_fields(fields@),
            ));
            return Some(fields);
        }
        from = end + 1;
    }
    Some(fields)
}

fn find_value<'a>(fields: &'a [Field], name: &str) -> (value: Option<&'a Vec<u8>>)
    requires
        vstd::string::is_ascii(name),
    ensures
        match value {
            Some(value) => value_of(view_fields(fields@), text::ascii(name@)) == Some(value@),
            None => value_of(view_fields(fields@), text::ascii(name@)) is None,
        },
{
    let ghost all = view_fields(fields@);
    let mut n: usize = fields.len();
    assert(all.take(n as int) =~= all);
    while n > 0
        invariant
            n <= fields@.len(),
            all == view_fields(fields@),
            vstd::string::is_ascii(name),
            value_of(all, text::ascii(name@)) == value_of(all.take(n as int), text::ascii(name@)),
        decreases n,
    {
        assert(all.take(n as int).drop_last() =~= all.take(n - 1));
        assert(all.take(n as int).last() == view_field(fields@[n - 1]));
        if equal_bytes(&fields[n - 1].name, ascii_bytes(name)) {
            return Some(&fields[n - 1].value);
        }
        n -= 1;
    }
    None
}

fn find_number(fields: &[Field], name: &str) -> (number: Option<u64>)
    requires
        vstd::string::is_ascii(name),
    ensures
        number == number_of(view_fields(fields@), name@),
{
    match find_value(fields, name) {
        Some(value) => parse_decimal(value),
        None => None,
    }
}

fn parse_ids(list: &[u8]) -> (ids: Option<Vec<NodeId>>)
    ensures
        match ids {
            Some(ids) => split_ids(list@) == Some(ids@),
            None => split_ids(list@) is None,
        },
{
    let mut ids: Vec<NodeId> = Vec::new();
    let mut from: usize = 0;
    proof {
        assert(list@.skip(0) =~= list@);
        if let Some(others) = split_ids(list@) {
            assert(ids@ + others =~= others);
        }
    }
    while from < list.len()
        invariant
            from <= list@.len(),
            split_ids(list@) == match split_ids(list@.skip(from as int)) {
                Some(others) => Some(ids@ + others),
                None => None,
            },
        decreases list.len() - from,
    {
        let ghost rest = list@.skip(from as int);
        let ghost before = ids@;
        let end: usize = find_byte(list, 44, from);
        let item = copy_range(list, from, end);
        let next: usize = if end < list.len() {
            end + 1
        } else {
            end
        };
        let ghost others = split_ids(list@.skip(next as int));
        proof {
            text::lemma_find_from(list@, 44, from as int);
            lemma_find_at(rest, 44, 0, end - from);
            assert(rest.take(end - from) =~= item@);
            if end < list@.len() {
                assert(rest.skip(end - from + 1) =~= list@.skip(next as int));
            } else {
                assert(list@.skip(next as int) =~= Seq::empty());
            }
        }
        if item.len() > 0 {
            match parse_decimal(&item) {
                Some(id) => {
                    ids.push(NodeId(id));
                    proof {
                        if others is Some {
                            assert(before + (seq![NodeId(id)] + others->0) =~= ids@ + others->0);
                        }
                    }
                },
                None => {
                    return None;
                },
            }
        }
        from = next;
    }
    proof {
        assert(list@.skip(from as int) =~= Seq::empty());
        assert(ids@ + Seq::<NodeId>::empty() =~= ids@);
    }
    Some(ids)
}

fn find_ids(fields: &[Field], name: &str) -> (ids: Option<Vec<NodeId>>)
    requires
        vstd::string::is_ascii(name),
    ensures
        match ids {
            Some(ids) => ids_of(view_fields(fields@), name@) == Some(ids@),
            None => ids_of(view_fields(fields@), name@) is None,
        },
{
    match find_value(fields, name) {
        Some(value) => parse_ids(value),
        None => None,
    }
}

/// The seed and the configuration that text was saved of, or nothing if it is
/// malformed.
pub fn decode_seed(contents: &[u8]) -> (run: Option<(u64, RunConfig)>)
    ensures
        match run {
            Some((seed, config)) => decoded(contents@) == Some((seed, config.deep_view())),
            None => decoded(contents@) is None,
        },
{
    proof {
        lemma_ascii_words();
    }
    let fields = match find_fields(contents) {
        Some(fields) => fields,
        None => return None,
    };
    match (
        find_number(&fields, "seed"),
        find_ids(&fields, "peers"),
        find_number(&fields, "election_timeout"),
        find_number(&fields, "heartbeat_interval"),
        find_number(&fields, "min_delay"),
        find_number(&fields, "max_delay"),
        find_number(&fields, "apply_timeout_ticks"),
        find_number(&fields, "client_count"),
        find_number(&fields, "total_ticks"),
        find_number(&fields, "submit_chance_percent"),
        find_number(&fields, "fault_chance_percent"),
    ) {
        (
            Some(seed),
            Some(peers),
            Some(election_timeout),
            Some(heartbeat_interval),
            Some(min_delay),
            Some(max_delay),
            Some(apply_timeout_ticks),
            Some(client_count),
            Some(total_ticks),
            Some(submit_chance_percent),
            Some(fault_chance_percent),
        ) => {
            let config = RunConfig {
                peers,
                election_timeout,
                heartbeat_interval,
                min_delay,
                max_delay,
                apply_timeout_ticks,
                client_count,
                total_ticks,
                submit_chance_percent,
                fault_chance_percent,
            };
            Some((seed, config))
        },
        _ => None,
    }
}

} // verus!
