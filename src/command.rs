use vstd::prelude::*;
use vstd::string::StringSliceAdditionalSpecFns;
use crate::flip;
use crate::number::{Decimal, decimal_of, parse_decimal_bytes, parse_u8_spec, parse_u8_bytes, first_index, find_byte};
use crate::rain::RainType;
use crate::resize::Resize;
use crate::slide;
use crate::spin;

verus! {

/// One effect of the pipeline, with its parameters.
#[allow(inconsistent_fields)]
#[derive(Clone, Copy, PartialEq, Eq, Structural, Debug)]
pub enum Command {
    Flip { direction: flip::Direction },
    Hyperspeed,
    Infinite { speed: Decimal },
    Rain { ty: RainType },
    Rainbow { speed: Decimal },
    Reverse,
    Rotate { degrees: Decimal },
    Shake { strength: Decimal },
    Slide { direction: slide::Direction, speed: Decimal },
    Speed { value: Decimal },
    Spin { direction: spin::Direction, speed: Decimal },
    Wiggle { speed: Decimal },
}

/// One parsed entry of a command list: an effect, or the resize that is kept apart.
#[derive(Clone, Copy, PartialEq, Eq, Structural, Debug)]
pub enum CommandOrResize {
    Command(Command),
    Resize(Resize),
}

/// Why a command list was refused.
#[derive(Clone, Copy, PartialEq, Eq, Structural, Debug)]
pub enum CommandError {
    /// The entry's first key is not `name`.
    MissingName,
    /// The entry's second key is not `param`.
    MissingParam,
    /// The name is not one of the known effects.
    UnknownName,
    /// The parameter does not parse as the effect needs.
    InvalidParam,
}

/// The effects in order, and the one resize taken out of them.
pub struct Commands {
    pub commands: Vec<Command>,
    pub resize: Resize,
}

pub open spec fn w_flip() -> Seq<u8> { seq![102u8, 108, 105, 112] }
pub open spec fn w_hyperspeed() -> Seq<u8> { seq![104u8, 121, 112, 101, 114, 115, 112, 101, 101, 100] }
pub open spec fn w_infinite() -> Seq<u8> { seq![105u8, 110, 102, 105, 110, 105, 116, 101] }
pub open spec fn w_rain() -> Seq<u8> { seq![114u8, 97, 105, 110] }
pub open spec fn w_rainbow() -> Seq<u8> { seq![114u8, 97, 105, 110, 98, 111, 119] }
pub open spec fn w_resize() -> Seq<u8> { seq![114u8, 101, 115, 105, 122, 101] }
pub open spec fn w_reverse() -> Seq<u8> { seq![114u8, 101, 118, 101, 114, 115, 101] }
pub open spec fn w_rotate() -> Seq<u8> { seq![114u8, 111, 116, 97, 116, 101] }
pub open spec fn w_shake() -> Seq<u8> { seq![115u8, 104, 97, 107, 101] }
pub open spec fn w_slide() -> Seq<u8> { seq![115u8, 108, 105, 100, 101] }
pub open spec fn w_sliderev() -> Seq<u8> { seq![115u8, 108, 105, 100, 101, 114, 101, 118] }
pub open spec fn w_speed() -> Seq<u8> { seq![115u8, 112, 101, 101, 100] }
pub open spec fn w_spin() -> Seq<u8> { seq![115u8, 112, 105, 110] }
pub open spec fn w_spinrev() -> Seq<u8> { seq![115u8, 112, 105, 110, 114, 101, 118] }
pub open spec fn w_wiggle() -> Seq<u8> { seq![119u8, 105, 103, 103, 108, 101] }
pub open spec fn w_name() -> Seq<u8> { seq![110u8, 97, 109, 101] }
pub open spec fn w_param() -> Seq<u8> { seq![112u8, 97, 114, 97, 109] }

/// An effect whose parameter is a decimal.
pub open spec fn with_decimal(param: Seq<u8>, f: spec_fn(Decimal) -> Command) -> Result<CommandOrResize, CommandError> {
    match decimal_of(param) {
        Some(d) => Ok(CommandOrResize::Command(f(d))),
        None => Err(CommandError::InvalidParam),
    }
}

/// The resize that `param` writes: `s` scales both axes, `xxy` each its own.
pub open spec fn resize_of(param: Seq<u8>) -> Option<Resize> {
    let i = first_index(param, 120) as int;
    if i == param.len() {
        match decimal_of(param) {
            Some(s) => Some(Resize::Scale { scale: s }),
            None => None,
        }
    } else {
        match (decimal_of(param.subrange(0, i)), decimal_of(param.subrange(i + 1, param.len() as int))) {
            (Some(x), Some(y)) => Some(Resize::Stretch { scale_x: x, scale_y: y }),
            _ => None,
        }
    }
}

/// The entry that a name and a parameter write.
pub open spec fn command_of(name: Seq<u8>, param: Seq<u8>) -> Result<CommandOrResize, CommandError> {
    if name == w_flip() {
        match parse_u8_spec(param) {
            Some(v) => Ok(CommandOrResize::Command(Command::Flip {
                direction: if v == 0 { flip::Direction::Horizontal } else { flip::Direction::Vertical },
            })),
            None => Err(CommandError::InvalidParam),
        }
    } else if name == w_hyperspeed() {
        Ok(CommandOrResize::Command(Command::Hyperspeed))
    } else if name == w_infinite() {
        with_decimal(param, |d: Decimal| Command::Infinite { speed: d })
    } else if name == w_rain() {
        match parse_u8_spec(param) {
            Some(v) => Ok(CommandOrResize::Command(Command::Rain {
                ty: if v == 0 { RainType::Regular } else { RainType::Glitter },
            })),
            None => Err(CommandError::InvalidParam),
        }
    } else if name == w_rainbow() {
        with_decimal(param, |d: Decimal| Command::Rainbow { speed: d })
    } else if name == w_resize() {
        match resize_of(param) {
            Some(r) => Ok(CommandOrResize::Resize(r)),
            None => Err(CommandError::InvalidParam),
        }
    } else if name == w_reverse() {
        Ok(CommandOrResize::Command(Command::Reverse))
    } else if name == w_rotate() {
        with_decimal(param, |d: Decimal| Command::Rotate { degrees: d })
    } else if name == w_shake() {
        with_decimal(param, |d: Decimal| Command::Shake { strength: d })
    } else if name == w_slide() {
        with_decimal(param, |d: Decimal| Command::Slide { direction: slide::Direction::Forwards, speed: d })
    } else if name == w_sliderev() {
        with_decimal(param, |d: Decimal| Command::Slide { direction: slide::Direction::Backwards, speed: d })
    } else if name == w_speed() {
        with_decimal(param, |d: Decimal| Command::Speed { value: d })
    } else if name == w_spin() {
        with_decimal(param, |d: Decimal| Command::Spin { direction: spin::Direction::Clockwise, speed: d })
    } else if name == w_spinrev() {
        with_decimal(param, |d: Decimal| Command::Spin { direction: spin::Direction::CounterClockwise, speed: d })
    } else if name == w_wiggle() {
        with_decimal(param, |d: Decimal| Command::Wiggle { speed: d })
    } else {
        Err(CommandError::UnknownName)
    }
}

/// Whether `b` and `w` hold the same bytes.
fn same_bytes(b: &[u8], w: &[u8]) -> (r: bool)
    ensures
        r == (b@ == w@),
{
    if b.len() != w.len() {
        return false;
    }
    let mut i: usize = 0;
    while i < b.len()
        invariant
            i <= b@.len(),
            b@.len() == w@.len(),
            forall|k: int| 0 <= k < i ==> b@[k] == w@[k],
        decreases b.len() - i,
    {
        if b[i] != w[i] {
            return false;
        }
        i = i + 1;
    }
    assert(b@ =~= w@);
    true
}

/// The resize that `param` writes.
fn parse_resize(param: &[u8]) -> (r: Option<Resize>)
    ensures
        r == resize_of(param@),
{
    let i = find_byte(param, 120);
    if i == param.len() {
        match parse_decimal_bytes(param) {
            Some(s) => Some(Resize::Scale { scale: s }),
            None => None,
        }
    } else {
        let (x, rest) = param.split_at(i);
        let (_, y) = rest.split_at(1);
        assert(x@ =~= param@.subrange(0, i as int));
        assert(y@ =~= param@.subrange(i + 1, param@.len() as int));
        match (parse_decimal_bytes(x), parse_decimal_bytes(y)) {
            (Some(sx), Some(sy)) => Some(Resize::Stretch { scale_x: sx, scale_y: sy }),
            _ => None,
        }
    }
}

/// Parses the entry that the bytes of a name and of a parameter write.
pub fn parse_command_bytes(name: &[u8], param: &[u8]) -> (r: Result<CommandOrResize, CommandError>)
    ensures
        r == command_of(name@, param@),
{
    if same_bytes(name, &[102u8, 108, 105, 112]) {
        match parse_u8_bytes(param) {
            Some(v) => Ok(CommandOrResize::Command(Command::Flip { direction: flip::Direction::from(v) })),
            None => Err(CommandError::InvalidParam),
        }
    } else if same_bytes(name, &[104u8, 121, 112, 101, 114, 115, 112, 101, 101, 100]) {
        Ok(CommandOrResize::Command(Command::Hyperspeed))
    } else if same_bytes(name, &[105u8, 110, 102, 105, 110, 105, 116, 101]) {
        match parse_decimal_bytes(param) {
            Some(d) => Ok(CommandOrResize::Command(Command::Infinite { speed: d })),
            None => Err(CommandError::InvalidParam),
        }
    } else if same_bytes(name, &[114u8, 97, 105, 110]) {
        match parse_u8_bytes(param) {
            Some(v) => Ok(CommandOrResize::Command(Command::Rain { ty: RainType::from_param(v) })),
            None => Err(CommandError::InvalidParam),
        }
    } else if same_bytes(name, &[114u8, 97, 105, 110, 98, 111, 119]) {
        match parse_decimal_bytes(param) {
            Some(d) => Ok(CommandOrResize::Command(Command::Rainbow { speed: d })),
            None => Err(CommandError::InvalidParam),
        }
    } else if same_bytes(name, &[114u8, 101, 115, 105, 122, 101]) {
        match parse_resize(param) {
            Some(r) => Ok(CommandOrResize::Resize(r)),
            None => Err(CommandError::InvalidParam),
        }
    } else if same_bytes(name, &[114u8, 101, 118, 101, 114, 115, 101]) {
        Ok(CommandOrResize::Command(Command::Reverse))
    } else if same_bytes(name, &[114u8, 111, 116, 97, 116, 101]) {
        match parse_decimal_bytes(param) {
            Some(d) => Ok(CommandOrResize::Command(Command::Rotate { degrees: d })),
            None => Err(CommandError::InvalidParam),
        }
    } else if same_bytes(name, &[115u8, 104, 97, 107, 101]) {
        match parse_decimal_bytes(param) {
            Some(d) => Ok(CommandOrResize::Command(Command::Shake { strength: d })),
            None => Err(CommandError::InvalidParam),
        }
    } else if same_bytes(name, &[115u8, 108, 105, 100, 101]) {
        match parse_decimal_bytes(param) {
            Some(d) => Ok(CommandOrResize::Command(Command::Slide { direction: slide::Direction::Forwards, speed: d })),
            None => Err(CommandError::InvalidParam),
        }
    } else if same_bytes(name, &[115u8, 108, 105, 100, 101, 114, 101, 118]) {
        match parse_decimal_bytes(param) {
            Some(d) => Ok(CommandOrResize::Command(Command::Slide { direction: slide::Direction::Backwards, speed: d })),
            None => Err(CommandError::InvalidParam),
        }
    } else if same_bytes(name, &[115u8, 112, 101, 101, 100]) {
        match parse_decimal_bytes(param) {
            Some(d) => Ok(CommandOrResize::Command(Command::Speed { value: d })),
            None => Err(CommandError::InvalidParam),
        }
    } else if same_bytes(name, &[115u8, 112, 105, 110]) {
        match parse_decimal_bytes(param) {
            Some(d) => Ok(CommandOrResize::Command(Command::Spin { direction: spin::Direction::Clockwise, speed: d })),
            None => Err(CommandError::InvalidParam),
        }
    } else if same_bytes(name, &[115u8, 112, 105, 110, 114, 101, 118]) {
        match parse_decimal_bytes(param) {
            Some(d) => Ok(CommandOrResize::Command(Command::Spin { direction: spin::Direction::CounterClockwise, speed: d })),
            None => Err(CommandError::InvalidParam),
        }
    } else if same_bytes(name, &[119u8, 105, 103, 103, 108, 101]) {
        match parse_decimal_bytes(param) {
            Some(d) => Ok(CommandOrResize::Command(Command::Wiggle { speed: d })),
            None => Err(CommandError::InvalidParam),
        }
    } else {
        Err(CommandError::UnknownName)
    }
}

/// Parses the entry that a name and a parameter write, such as `("rotate", "90")`.
pub fn parse_command(name: &str, param: &str) -> (r: Result<CommandOrResize, CommandError>)
    ensures
        r == command_of(name.spec_bytes(), param.spec_bytes()),
{
    parse_command_bytes(name.as_bytes(), param.as_bytes())
}

/// The UTF-8 bytes of a string.
pub open spec fn text(s: String) -> Seq<u8> {
    vstd::utf8::encode_utf8(s@)
}

/// The entry that a list of (key, value) pairs writes: its first key must be
/// `name` and its second `param`; any further pairs are ignored.
pub open spec fn entry_of(e: Seq<(String, String)>) -> Result<CommandOrResize, CommandError> {
    if e.len() == 0 || text(e[0].0) != w_name() {
        Err(CommandError::MissingName)
    } else if e.len() < 2 || text(e[1].0) != w_param() {
        Err(CommandError::MissingParam)
    } else {
        command_of(text(e[0].1), text(e[1].1))
    }
}

/// The entries of a whole list, or the error of its first bad entry.
pub open spec fn entries_of(list: Seq<Vec<(String, String)>>) -> Result<Seq<CommandOrResize>, CommandError>
    decreases list.len(),
{
    if list.len() == 0 {
        Ok(Seq::empty())
    } else {
        match entries_of(list.drop_last()) {
            Err(e) => Err(e),
            Ok(s) => match entry_of(list.last()@) {
                Ok(x) => Ok(s.push(x)),
                Err(e) => Err(e),
            },
        }
    }
}

/// The effects of a list of entries in order, and the last resize among them
/// (`Unchanged` if there is none).
pub open spec fn split_entries(s: Seq<CommandOrResize>) -> (Seq<Command>, Resize)
    decreases s.len(),
{
    if s.len() == 0 {
        (Seq::empty(), Resize::Unchanged)
    } else {
        let (cs, r) = split_entries(s.drop_last());
        match s.last() {
            CommandOrResize::Command(c) => (cs.push(c), r),
            CommandOrResize::Resize(z) => (cs, z),
        }
    }
}

fn string_bytes(s: &String) -> (r: &[u8])
    ensures
        r@ == text(*s),
{
    s.as_str().as_bytes()
}

/// Parses one entry of a command list, given as its (key, value) pairs in order.
pub fn parse_entry(entry: &Vec<(String, String)>) -> (r: Result<CommandOrResize, CommandError>)
    ensures
        r == entry_of(entry@),
{
    if entry.len() == 0 || !same_bytes(string_bytes(&entry[0].0), &[110u8, 97, 109, 101]) {
        return Err(CommandError::MissingName);
    }
    if entry.len() < 2 || !same_bytes(string_bytes(&entry[1].0), &[112u8, 97, 114, 97, 109]) {
        return Err(CommandError::MissingParam);
    }
    parse_command_bytes(string_bytes(&entry[0].1), string_bytes(&entry[1].1))
}

impl Commands {
    pub fn new(commands: Vec<Command>, resize: Resize) -> (r: Commands)
        ensures
            r.commands@ == commands@,
            r.resize == resize,
    {
        Commands { commands, resize }
    }

    /// Parses a command list: every entry in order, the effects kept in order
    /// and the last resize taken out of them.
    pub fn parse(list: &Vec<Vec<(String, String)>>) -> (r: Result<Commands, CommandError>)
        ensures
            r is Ok <==> entries_of(list@) is Ok,
            r matches Ok(c) ==> (c.commands@, c.resize) == split_entries(entries_of(list@)->Ok_0),
            r matches Err(e) ==> entries_of(list@) == Err::<Seq<CommandOrResize>, CommandError>(e),
    {
        let mut commands: Vec<Command> = Vec::new();
        let mut resize = Resize::Unchanged;
        let mut i: usize = 0;
        while i < list.len()
            invariant
                i <= list@.len(),
                entries_of(list@.take(i as int)) is Ok,
                (commands@, resize) == split_entries(entries_of(list@.take(i as int))->Ok_0),
            decreases list.len() - i,
        {
            let e = parse_entry(&list[i]);
            assert(list@.take(i + 1).drop_last() =~= list@.take(i as int));
            match e {
                Ok(CommandOrResize::Command(c)) => {
                    commands.push(c);
                },
                Ok(CommandOrResize::Resize(z)) => {
                    resize = z;
                },
                Err(err) => {
                    proof {
                        lemma_entries_error_stays(list@, i as int + 1);
                    }
                    return Err(err);
                },
            }
            i = i + 1;
            let ghost s = entries_of(list@.take(i as int))->Ok_0;
            assert(s.drop_last() == entries_of(list@.take(i - 1))->Ok_0);
        }
        assert(list@.take(i as int) =~= list@);
        Ok(Commands { commands, resize })
    }
}

/// A list whose prefix holds a bad entry is refused with that entry's error.
proof fn lemma_entries_error_stays(list: Seq<Vec<(String, String)>>, i: int)
    requires
        0 <= i <= list.len(),
        entries_of(list.take(i)) is Err,
    ensures
        entries_of(list) == entries_of(list.take(i)),
    decreases list.len() - i,
{
    if i < list.len() {
        assert(list.take(i + 1).drop_last() =~= list.take(i));
        lemma_entries_error_stays(list, i + 1);
    } else {
        assert(list.take(i) =~= list);
    }
}

/// The resize kept apart from a list is its last one: an entry `i` that is a
/// resize, with only effects after it, gives the resize of the whole list.
pub proof fn lemma_last_resize_wins(s: Seq<CommandOrResize>, i: int, z: Resize)
    requires
        0 <= i < s.len(),
        s[i] == CommandOrResize::Resize(z),
        forall|j: int| i < j < s.len() ==> #[trigger] s[j] is Command,
    ensures
        split_entries(s).1 == z,
    decreases s.len(),
{
    if i < s.len() - 1 {
        assert(s.drop_last()[i] == s[i]);
        assert forall|j: int| i < j < s.drop_last().len() implies #[trigger] s.drop_last()[j] is Command by {
            assert(s.drop_last()[j] == s[j]);
        }
        lemma_last_resize_wins(s.drop_last(), i, z);
        assert(s.last() is Command);
    }
}

/// A list with no resize leaves the frames' size unchanged, and keeps every
/// entry as an effect, in order.
pub proof fn lemma_no_resize(s: Seq<CommandOrResize>)
    requires
        forall|j: int| 0 <= j < s.len() ==> #[trigger] s[j] is Command,
    ensures
        split_entries(s).1 == Resize::Unchanged,
        split_entries(s).0.len() == s.len(),
        forall|j: int| 0 <= j < s.len() ==> s[j] == CommandOrResize::Command(#[trigger] split_entries(s).0[j]),
    decreases s.len(),
{
    if s.len() > 0 {
        assert forall|j: int| 0 <= j < s.drop_last().len() implies #[trigger] s.drop_last()[j] is Command by {
            assert(s.drop_last()[j] == s[j]);
        }
        lemma_no_resize(s.drop_last());
        assert(s[s.len() - 1] is Command);
        assert forall|j: int| 0 <= j < s.len() implies s[j] == CommandOrResize::Command(#[trigger] split_entries(s).0[j]) by {
            if j < s.len() - 1 {
                assert(s.drop_last()[j] == s[j]);
            }
        }
    }
}

} // verus!
