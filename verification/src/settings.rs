//! Gamepad key bindings, and how they are stored.

use crate::text;
use crate::text::push_number;
use vstd::prelude::*;
use vstd::string::StringExecFns;

verus! {

/// Remappable flight actions.
#[derive(Clone, Copy, Debug, PartialEq, Eq, Structural)]
pub enum Action {
    Arm,
    Takeoff,
    Land,
    Flip,
    Calibrate,
    Headless,
    Emergency,
    TrimReset,
}

/// All actions, in place.
pub const ACTIONS: [Action; 8] = [
    Action::Arm,
    Action::Takeoff,
    Action::Land,
    Action::Flip,
    Action::Calibrate,
    Action::Headless,
    Action::Emergency,
    Action::TrimReset,
];

impl Action {
    /// The place of an action in [`ACTIONS`] and in [`Bindings`].
    pub open spec fn place(self) -> int {
        match self {
            Action::Arm => 0,
            Action::Takeoff => 1,
            Action::Land => 2,
            Action::Flip => 3,
            Action::Calibrate => 4,
            Action::Headless => 5,
            Action::Emergency => 6,
            Action::TrimReset => 7,
        }
    }

    /// The place of an action in [`ACTIONS`] and in [`Bindings`].
    pub fn index(self) -> (i: usize)
        ensures
            i == self.place(),
    {
        match self {
            Action::Arm => 0,
            Action::Takeoff => 1,
            Action::Land => 2,
            Action::Flip => 3,
            Action::Calibrate => 4,
            Action::Headless => 5,
            Action::Emergency => 6,
            Action::TrimReset => 7,
        }
    }

    /// The name of an action on screen.
    pub open spec fn name(self) -> Seq<char> {
        match self {
            Action::Arm => "ARM"@,
            Action::Takeoff => "TAKEOFF"@,
            Action::Land => "LAND"@,
            Action::Flip => "FLIP"@,
            Action::Calibrate => "CALIBRATE"@,
            Action::Headless => "HEADLESS"@,
            Action::Emergency => "EMERGENCY"@,
            Action::TrimReset => "TRIM RESET"@,
        }
    }

    /// The name of an action on screen.
    pub fn label(self) -> (s: &'static str)
        ensures
            s@ == self.name(),
    {
        match self {
            Action::Arm => "ARM",
            Action::Takeoff => "TAKEOFF",
            Action::Land => "LAND",
            Action::Flip => "FLIP",
            Action::Calibrate => "CALIBRATE",
            Action::Headless => "HEADLESS",
            Action::Emergency => "EMERGENCY",
            Action::TrimReset => "TRIM RESET",
        }
    }
}

/// The action in every place is the one that says so.
pub proof fn actions_are_in_place(a: Action)
    ensures
        0 <= a.place() < 8,
        ACTIONS@[a.place()] == a,
{
}

/// Keycodes of gamepad buttons.
pub const BUTTON_A: u32 = 96;

pub const BUTTON_B: u32 = 97;

pub const BUTTON_X: u32 = 99;

pub const BUTTON_Y: u32 = 100;

pub const BUTTON_L1: u32 = 102;

pub const BUTTON_R1: u32 = 103;

pub const BUTTON_L2: u32 = 104;

pub const BUTTON_R2: u32 = 105;

pub const BUTTON_THUMBL: u32 = 106;

pub const BUTTON_THUMBR: u32 = 107;

pub const BUTTON_START: u32 = 108;

pub const BUTTON_SELECT: u32 = 109;

pub const BUTTON_MODE: u32 = 110;

/// The keys of the default bindings, by action.
pub open spec fn default_keys() -> Seq<u32> {
    seq![
        BUTTON_START,
        BUTTON_B,
        BUTTON_A,
        BUTTON_Y,
        BUTTON_X,
        BUTTON_L1,
        BUTTON_SELECT,
        BUTTON_R1,
    ]
}

/// Action to gamepad keycode, by [`Action::index`].
#[derive(Clone, Copy, Debug, PartialEq, Eq)]
pub struct Bindings {
    pub keys: [u32; 8],
}

impl Default for Bindings {
    fn default() -> (b: Self)
        ensures
            b.keys@ == default_keys(),
    {
        Bindings {
            keys: [
                BUTTON_START,
                BUTTON_B,
                BUTTON_A,
                BUTTON_Y,
                BUTTON_X,
                BUTTON_L1,
                BUTTON_SELECT,
                BUTTON_R1,
            ],
        }
    }
}

impl Bindings {
    /// The keycode that triggers an action.
    pub fn get(&self, a: Action) -> (kc: u32)
        ensures
            kc == self.keys@[a.place()],
    {
        self.keys[a.index()]
    }

    /// Binds an action to a keycode.
    pub fn set(&mut self, a: Action, kc: u32)
        ensures
            final(self).keys@ == old(self).keys@.update(a.place(), kc),
    {
        self.keys[a.index()] = kc;
    }
}

/// The name of a gamepad button, or `K` and the keycode.
pub open spec fn button_label(kc: u32) -> Seq<char> {
    if kc == BUTTON_A {
        "A"@
    } else if kc == BUTTON_B {
        "B"@
    } else if kc == BUTTON_X {
        "X"@
    } else if kc == BUTTON_Y {
        "Y"@
    } else if kc == BUTTON_L1 {
        "L1"@
    } else if kc == BUTTON_R1 {
        "R1"@
    } else if kc == BUTTON_L2 {
        "L2"@
    } else if kc == BUTTON_R2 {
        "R2"@
    } else if kc == BUTTON_THUMBL {
        "L-STICK"@
    } else if kc == BUTTON_THUMBR {
        "R-STICK"@
    } else if kc == BUTTON_START {
        "START"@
    } else if kc == BUTTON_SELECT {
        "SELECT"@
    } else if kc == BUTTON_MODE {
        "MODE"@
    } else {
        "K"@ + text::digits(kc as nat)
    }
}

/// Friendly label for a gamepad keycode.
pub fn button_name(kc: u32) -> (s: String)
    ensures
        s@ == button_label(kc),
{
    let name = match kc {
        96 => "A",
        97 => "B",
        99 => "X",
        100 => "Y",
        102 => "L1",
        103 => "R1",
        104 => "L2",
        105 => "R2",
        106 => "L-STICK",
        107 => "R-STICK",
        108 => "START",
        109 => "SELECT",
        110 => "MODE",
        _ => {
            let mut s = "K".to_owned();
            push_number(&mut s, kc);
            return s;
        },
    };
    name.to_owned()
}

/// Whether a character separates words: the Unicode `White_Space` property.
pub open spec fn is_space(c: char) -> bool {
    ||| 0x09 <= c as u32 <= 0x0D
    ||| c as u32 == 0x20
    ||| c as u32 == 0x85
    ||| c as u32 == 0xA0
    ||| c as u32 == 0x1680
    ||| 0x2000 <= c as u32 <= 0x200A
    ||| c as u32 == 0x2028
    ||| c as u32 == 0x2029
    ||| c as u32 == 0x202F
    ||| c as u32 == 0x205F
    ||| c as u32 == 0x3000
}

fn separates(c: char) -> (b: bool)
    ensures
        b == is_space(c),
{
    let u: u32 = c as u32;
    (0x09 <= u && u <= 0x0D) || u == 0x20 || u == 0x85 || u == 0xA0 || u == 0x1680 || (0x2000 <= u
        && u <= 0x200A) || u == 0x2028 || u == 0x2029 || u == 0x202F || u == 0x205F || u == 0x3000
}

/// The finished words of a text, and the word that may still go on.
pub open spec fn words_so_far(s: Seq<char>) -> (Seq<Seq<char>>, Seq<char>)
    decreases s.len(),
{
    if s.len() == 0 {
        (Seq::empty(), Seq::empty())
    } else {
        let (done, word) = words_so_far(s.drop_last());
        if !is_space(s.last()) {
            (done, word.push(s.last()))
        } else if word.len() == 0 {
            (done, word)
        } else {
            (done.push(word), Seq::empty())
        }
    }
}

/// The words of a text.
pub open spec fn words(s: Seq<char>) -> Seq<Seq<char>> {
    let (done, word) = words_so_far(s);
    if word.len() == 0 {
        done
    } else {
        done.push(word)
    }
}

/// The digits of a word: all of it but a leading `+`.
pub open spec fn unsigned_part(word: Seq<char>) -> Seq<char> {
    if word.len() > 0 && word[0] == '+' {
        word.skip(1)
    } else {
        word
    }
}

/// The 32-bit number that a word stands for, if it does.
pub open spec fn number(word: Seq<char>) -> Option<u32> {
    let ds = unsigned_part(word);
    if ds.len() > 0 && (forall|i: int| 0 <= i < ds.len() ==> text::is_digit(#[trigger] ds[i]))
        && text::value(ds) <= u32::MAX {
        Some(text::value(ds) as u32)
    } else {
        None
    }
}

/// The numbers among some words.
pub open spec fn numbers(ws: Seq<Seq<char>>) -> Seq<u32>
    decreases ws.len(),
{
    if ws.len() == 0 {
        Seq::empty()
    } else {
        match number(ws.last()) {
            Some(n) => numbers(ws.drop_last()).push(n),
            None => numbers(ws.drop_last()),
        }
    }
}

/// The keys in a settings text: its numbers if there are eight, else the defaults.
pub open spec fn stored_keys(s: Seq<char>) -> Seq<u32> {
    let ns = numbers(words(s));
    if ns.len() == 8 {
        ns
    } else {
        default_keys()
    }
}

proof fn lemma_value_grows(s: Seq<char>, k: int)
    requires
        0 <= k <= s.len(),
        forall|i: int| 0 <= i < s.len() ==> text::is_digit(#[trigger] s[i]),
    ensures
        text::value(s.take(k)) <= text::value(s),
    decreases s.len(),
{
    if k == s.len() {
        assert(s.take(k) =~= s);
    } else {
        let front = s.drop_last();
        assert(s.take(k) =~= front.take(k));
        assert forall|i: int| 0 <= i < front.len() implies text::is_digit(#[trigger] front[i]) by {
            assert(front[i] == s[i]);
        }
        lemma_value_grows(front, k);
        assert(text::is_digit(s[s.len() - 1]));
    }
}

fn parse_number(word: &Vec<char>) -> (r: Option<u32>)
    ensures
        r == number(word@),
{
    let start: usize = if word.len() > 0 && word[0] == '+' {
        1
    } else {
        0
    };
    let ghost ds = unsigned_part(word@);
    assert(ds =~= word@.skip(start as int));
    if word.len() == start {
        return None;
    }
    let mut n: u64 = 0;
    let mut i: usize = start;
    assert(ds.take(0) =~= Seq::<char>::empty());
    while i < word.len()
        invariant
            start <= i <= word.len(),
            start < word.len(),
            ds == word@.skip(start as int),
            ds == unsigned_part(word@),
            forall|j: int| 0 <= j < i - start ==> text::is_digit(#[trigger] ds[j]),
            n == text::value(ds.take(i - start)),
            n <= u32::MAX,
        decreases word.len() - i,
    {
        let c = word[i];
        let ghost k = i - start;
        assert(ds[k] == c);
        if c < '0' || c > '9' {
            assert(!text::is_digit(ds[k]));
            return None;
        }
        let ghost was = n;
        n = n * 10 + (c as u32 - '0' as u32) as u64;
        i = i + 1;
        proof {
            assert(ds.take(k + 1).drop_last() =~= ds.take(k));
            assert(ds.take(k + 1).last() == c);
        }
        if n > u32::MAX as u64 {
            proof {
                if number(word@) is Some {
                    lemma_value_grows(ds, k + 1);
                }
            }
            return None;
        }
    }
    assert(ds.take(ds.len() as int) =~= ds);
    Some(n as u32)
}

/// Reads bindings from a settings text: eight numbers, by action. Words that are no
/// numbers are passed over, and any other count of numbers gives the defaults.
pub fn parse_bindings(s: &str) -> (b: Bindings)
    ensures
        b.keys@ == stored_keys(s@),
{
    let mut nums: Vec<u32> = Vec::new();
    let mut word: Vec<char> = Vec::new();
    assert(s@.take(0) =~= Seq::<char>::empty());
    for c in it: s.chars()
        invariant
            it.seq() == s@,
            word@ == words_so_far(s@.take(it.index())).1,
            nums@ == numbers(words_so_far(s@.take(it.index())).0),
    {
        let ghost k = it.index();
        let ghost now = s@.take(k + 1);
        let ghost done = words_so_far(s@.take(k)).0;
        proof {
            assert(now.drop_last() =~= s@.take(k));
            assert(now.last() == c);
        }
        if !separates(c) {
            word.push(c);
        } else if word.len() > 0 {
            proof {
                assert(done.push(word@).drop_last() =~= done);
            }
            if let Some(n) = parse_number(&word) {
                nums.push(n);
            }
            word.clear();
        }
    }
    proof {
        assert(s@.take(s@.len() as int) =~= s@);
        let done = words_so_far(s@).0;
        assert(done.push(word@).drop_last() =~= done);
    }
    if word.len() > 0 {
        if let Some(n) = parse_number(&word) {
            nums.push(n);
        }
    }
    let mut b = Bindings::default();
    if nums.len() == 8 {
        b.keys = [nums[0], nums[1], nums[2], nums[3], nums[4], nums[5], nums[6], nums[7]];
        assert(b.keys@ =~= nums@);
    }
    b
}

/// Keys as text: decimal numbers with single spaces between them.
pub open spec fn rendered(keys: Seq<u32>) -> Seq<char>
    decreases keys.len(),
{
    if keys.len() == 0 {
        Seq::empty()
    } else if keys.len() == 1 {
        text::digits(keys[0] as nat)
    } else {
        rendered(keys.drop_last()) + seq![' '] + text::digits(keys.last() as nat)
    }
}

/// The settings text of some bindings.
pub fn render_bindings(b: &Bindings) -> (s: String)
    ensures
        s@ == rendered(b.keys@),
{
    proof {
        reveal_strlit(" ");
    }
    let mut s = String::new();
    for i in 0..8usize
        invariant
            s@ == rendered(b.keys@.take(i as int)),
            " "@ == seq![' '],
    {
        let ghost was = s@;
        if i > 0 {
            s.append(" ");
        }
        push_number(&mut s, b.keys[i]);
        proof {
            let now = b.keys@.take(i + 1);
            assert(now.drop_last() =~= b.keys@.take(i as int));
            assert(now.last() == b.keys@[i as int]);
            assert(s@ =~= rendered(now));
        }
    }
    proof {
        assert(b.keys@.take(8) =~= b.keys@);
    }
    s
}

proof fn lemma_word_goes_on(s: Seq<char>, more: Seq<char>)
    requires
        forall|i: int| 0 <= i < more.len() ==> !is_space(#[trigger] more[i]),
    ensures
        words_so_far(s + more).0 == words_so_far(s).0,
        words_so_far(s + more).1 == words_so_far(s).1 + more,
    decreases more.len(),
{
    if more.len() == 0 {
        assert(s + more =~= s);
        assert(words_so_far(s).1 + more =~= words_so_far(s).1);
    } else {
        let front = more.drop_last();
        assert forall|i: int| 0 <= i < front.len() implies !is_space(#[trigger] front[i]) by {
            assert(front[i] == more[i]);
        }
        lemma_word_goes_on(s, front);
        assert((s + more).drop_last() =~= s + front);
        assert(!is_space(more[more.len() - 1]));
        assert((words_so_far(s).1 + front).push(more.last()) =~= words_so_far(s).1 + more);
    }
}

/// The words of keys as text: all but the last, and the last.
proof fn lemma_rendered_words(keys: Seq<u32>)
    requires
        keys.len() > 0,
    ensures
        words_so_far(rendered(keys)).1 == text::digits(keys.last() as nat),
        numbers(words_so_far(rendered(keys)).0) == keys.drop_last(),
    decreases keys.len(),
{
    let word = text::digits(keys.last() as nat);
    text::digits_read_back(keys.last() as nat);
    assert forall|i: int| 0 <= i < word.len() implies !is_space(#[trigger] word[i]) by {
        assert(text::is_digit(word[i]));
    }
    let none = Seq::<char>::empty();
    if keys.len() == 1 {
        lemma_word_goes_on(none, word);
        assert(none + word =~= word);
        assert(keys.drop_last() =~= Seq::<u32>::empty());
    } else {
        let front = keys.drop_last();
        lemma_rendered_words(front);
        lemma_number_reads_back(front.last());
        text::digits_read_back(front.last() as nat);
        let before = rendered(front);
        let spaced = before + seq![' '];
        let (done, last) = words_so_far(before);
        assert(spaced.drop_last() =~= before);
        assert(words_so_far(spaced) == (done.push(last), none));
        assert(done.push(last).drop_last() =~= done);
        assert(numbers(done.push(last)) =~= front);
        lemma_word_goes_on(spaced, word);
        assert(none + word =~= word);
    }
}

proof fn lemma_number_reads_back(n: u32)
    ensures
        number(text::digits(n as nat)) == Some(n),
{
    let s = text::digits(n as nat);
    text::digits_read_back(n as nat);
    assert(text::is_digit(s[0]));
    assert(unsigned_part(s) == s);
}

/// What was saved is loaded back, whatever the eight keys are.
pub proof fn saved_bindings_load_back(keys: Seq<u32>)
    requires
        keys.len() == 8,
    ensures
        stored_keys(rendered(keys)) == keys,
{
    let s = rendered(keys);
    lemma_rendered_words(keys);
    lemma_number_reads_back(keys.last());
    text::digits_read_back(keys.last() as nat);
    let (done, word) = words_so_far(s);
    assert(done.push(word).drop_last() =~= done);
    assert(numbers(words(s)) =~= keys);
}

/// Binding one action changes that action's key and no other.
pub proof fn binding_changes_one_action(keys: Seq<u32>, a: Action, other: Action, kc: u32)
    requires
        keys.len() == 8,
    ensures
        keys.update(a.place(), kc)[a.place()] == kc,
        other != a ==> keys.update(a.place(), kc)[other.place()] == keys[other.place()],
{
}

/// A text without exactly eight numbers gives the default bindings.
pub proof fn damaged_settings_give_defaults(s: Seq<char>)
    requires
        numbers(words(s)).len() != 8,
    ensures
        stored_keys(s) == default_keys(),
{
}

proof fn lemma_words_after_break(s: Seq<char>, b: Seq<char>)
    requires
        words_so_far(s).1.len() == 0,
    ensures
        words_so_far(s + b).0 == words_so_far(s).0 + words_so_far(b).0,
        words_so_far(s + b).1 == words_so_far(b).1,
    decreases b.len(),
{
    if b.len() == 0 {
        assert(s + b =~= s);
        assert(words_so_far(s).0 + words_so_far(b).0 =~= words_so_far(s).0);
        assert(words_so_far(s).1 =~= words_so_far(b).1);
    } else {
        lemma_words_after_break(s, b.drop_last());
        assert((s + b).drop_last() =~= s + b.drop_last());
        assert((s + b).last() == b.last());
        assert(words_so_far(s + b).0 =~= words_so_far(s).0 + words_so_far(b).0);
    }
}

/// Words are what white space separates: the words of two texts with white space between
/// them are those of the first and then those of the second, a text without white space
/// is one word, and an empty text holds none.
pub proof fn white_space_separates_words(a: Seq<char>, space: char, b: Seq<char>, word: Seq<char>)
    requires
        is_space(space),
        word.len() > 0,
        forall|i: int| 0 <= i < word.len() ==> !is_space(#[trigger] word[i]),
    ensures
        words(a + seq![space] + b) == words(a) + words(b),
        words(word) == seq![word],
        words(Seq::empty()) == Seq::<Seq<char>>::empty(),
{
    let s = a + seq![space];
    let none = Seq::<char>::empty();
    assert(s.drop_last() =~= a);
    assert(s.last() == space);
    assert(words_so_far(s) == (words(a), none)) by {
        assert(words_so_far(s).1 =~= none);
    }
    lemma_words_after_break(s, b);
    assert(words(s + b) =~= words(a) + words(b));
    lemma_word_goes_on(none, word);
    assert(none + word =~= word);
    assert(words(word) =~= seq![word]);
    assert(words(none) =~= Seq::<Seq<char>>::empty());
}

/// White space is blanks, tabs, line ends and their like: of the characters up to 0x7F
/// only the blank and the five from tab to carriage return; of the others those that
/// Unicode lists. No digit or sign is.
pub proof fn white_space_is_blank(c: char)
    ensures
        c as u32 <= 0x7F ==> is_space(c) == (c as u32 == 0x20 || 9 <= c as u32 <= 13),
        c as u32 > 0x7F ==> is_space(c) == (c as u32 == 0x85 || c as u32 == 0xA0 || c as u32 == 0x1680
            || 0x2000 <= c as u32 <= 0x200A || 0x2028 <= c as u32 <= 0x2029 || c as u32 == 0x202F
            || c as u32 == 0x205F || c as u32 == 0x3000),
        is_space(c) ==> !text::is_digit(c) && c != '+' && c != '-',
        text::is_digit(c) <==> 0x30 <= c as u32 <= 0x39,
{
}

/// Which words are numbers: decimal digits, at least one, with or without a plus sign in
/// front, as far as 32 bits go. Anything else in a word makes it none.
pub proof fn numbers_are_decimal(word: Seq<char>, at: int)
    requires
        0 <= at < word.len(),
    ensures
        number(Seq::empty()) is None,
        number(seq!['+']) is None,
        !text::is_digit(word[at]) && (at > 0 || word[at] != '+') ==> number(word) is None,
        (forall|i: int| 0 <= i < word.len() ==> text::is_digit(#[trigger] word[i])) ==> {
            &&& number(word) == number(seq!['+'] + word)
            &&& text::value(word) <= u32::MAX ==> number(word) is Some && number(word)->0
                == text::value(word)
            &&& text::value(word) > u32::MAX ==> number(word) is None
        },
{
    assert(seq!['+'].skip(1) =~= Seq::<char>::empty());
    assert((seq!['+'] + word).skip(1) =~= word);
    let ds = unsigned_part(word);
    if word[0] == '+' {
        if at > 0 {
            assert(ds[at - 1] == word[at]);
        }
        assert(!text::is_digit(word[0]));
    } else {
        assert(ds == word);
    }
}

/// Words that are no numbers are passed over, and the others keep their order.
pub proof fn numbers_keep_their_order(a: Seq<Seq<char>>, b: Seq<Seq<char>>, word: Seq<char>)
    ensures
        numbers(a + b) == numbers(a) + numbers(b),
        number(word) is None ==> numbers(seq![word]) == Seq::<u32>::empty(),
        number(word) matches Some(n) ==> numbers(seq![word]) == seq![n],
    decreases b.len(),
{
    assert(seq![word].drop_last() =~= Seq::<Seq<char>>::empty());
    reveal_with_fuel(numbers, 2);
    assert(numbers(Seq::<Seq<char>>::empty()) =~= Seq::<u32>::empty());
    if let Some(n) = number(word) {
        assert(numbers(seq![word]) =~= seq![n]);
    }
    if b.len() == 0 {
        assert(a + b =~= a);
        assert(numbers(a) + numbers(b) =~= numbers(a));
    } else {
        numbers_keep_their_order(a, b.drop_last(), word);
        assert((a + b).drop_last() =~= a + b.drop_last());
        assert((a + b).last() == b.last());
        assert(numbers(a + b) =~= numbers(a) + numbers(b));
    }
}

/// Eight numbers in a text are the keys of the eight actions, in the order arm, takeoff,
/// land, flip, calibrate, headless, emergency, trim reset.
pub proof fn settings_list_keys_by_action(s: Seq<char>)
    requires
        numbers(words(s)).len() == 8,
    ensures
        stored_keys(s)[Action::Arm.place()] == numbers(words(s))[0],
        stored_keys(s)[Action::Takeoff.place()] == numbers(words(s))[1],
        stored_keys(s)[Action::Land.place()] == numbers(words(s))[2],
        stored_keys(s)[Action::Flip.place()] == numbers(words(s))[3],
        stored_keys(s)[Action::Calibrate.place()] == numbers(words(s))[4],
        stored_keys(s)[Action::Headless.place()] == numbers(words(s))[5],
        stored_keys(s)[Action::Emergency.place()] == numbers(words(s))[6],
        stored_keys(s)[Action::TrimReset.place()] == numbers(words(s))[7],
        stored_keys(s).len() == 8,
{
}

/// What is saved is one number for each action, in order, with a single blank between
/// two of them.
pub proof fn settings_are_saved_in_order(keys: Seq<u32>, key: u32)
    ensures
        rendered(Seq::empty()) == Seq::<char>::empty(),
        rendered(seq![key]) == text::digits(key as nat),
        keys.len() > 0 ==> rendered(keys.push(key)) == rendered(keys) + seq![' '] + text::digits(
            key as nat,
        ),
{
    assert(keys.push(key).drop_last() =~= keys);
}

/// What the buttons are called, each by its own code; a code without a name is called `K`
/// and its number.
pub proof fn buttons_are_called(kc: u32)
    ensures
        kc == 96 ==> button_label(kc) == seq!['A'],
        kc == 97 ==> button_label(kc) == seq!['B'],
        kc == 99 ==> button_label(kc) == seq!['X'],
        kc == 100 ==> button_label(kc) == seq!['Y'],
        kc == 102 ==> button_label(kc) == seq!['L', '1'],
        kc == 103 ==> button_label(kc) == seq!['R', '1'],
        kc == 104 ==> button_label(kc) == seq!['L', '2'],
        kc == 105 ==> button_label(kc) == seq!['R', '2'],
        kc == 106 ==> button_label(kc) == seq!['L', '-', 'S', 'T', 'I', 'C', 'K'],
        kc == 107 ==> button_label(kc) == seq!['R', '-', 'S', 'T', 'I', 'C', 'K'],
        kc == 108 ==> button_label(kc) == seq!['S', 'T', 'A', 'R', 'T'],
        kc == 109 ==> button_label(kc) == seq!['S', 'E', 'L', 'E', 'C', 'T'],
        kc == 110 ==> button_label(kc) == seq!['M', 'O', 'D', 'E'],
        kc < 96 || kc == 98 || kc == 101 || kc > 110 ==> {
            &&& button_label(kc)[0] == 'K'
            &&& text::value(button_label(kc).skip(1)) == kc
        },
{
    reveal_strlit("A");
    reveal_strlit("B");
    reveal_strlit("X");
    reveal_strlit("Y");
    reveal_strlit("L1");
    reveal_strlit("R1");
    reveal_strlit("L2");
    reveal_strlit("R2");
    reveal_strlit("L-STICK");
    reveal_strlit("R-STICK");
    reveal_strlit("START");
    reveal_strlit("SELECT");
    reveal_strlit("MODE");
    reveal_strlit("K");
    assert("A"@ =~= seq!['A']);
    assert("B"@ =~= seq!['B']);
    assert("X"@ =~= seq!['X']);
    assert("Y"@ =~= seq!['Y']);
    assert("L1"@ =~= seq!['L', '1']);
    assert("R1"@ =~= seq!['R', '1']);
    assert("L2"@ =~= seq!['L', '2']);
    assert("R2"@ =~= seq!['R', '2']);
    assert("L-STICK"@ =~= seq!['L', '-', 'S', 'T', 'I', 'C', 'K']);
    assert("R-STICK"@ =~= seq!['R', '-', 'S', 'T', 'I', 'C', 'K']);
    assert("START"@ =~= seq!['S', 'T', 'A', 'R', 'T']);
    assert("SELECT"@ =~= seq!['S', 'E', 'L', 'E', 'C', 'T']);
    assert("MODE"@ =~= seq!['M', 'O', 'D', 'E']);
    text::digits_read_back(kc as nat);
    assert(("K"@ + text::digits(kc as nat)).skip(1) =~= text::digits(kc as nat));
}

/// What the actions are called.
pub proof fn actions_are_called(a: Action)
    ensures
        a == Action::Arm ==> a.name() == seq!['A', 'R', 'M'],
        a == Action::Takeoff ==> a.name() == seq!['T', 'A', 'K', 'E', 'O', 'F', 'F'],
        a == Action::Land ==> a.name() == seq!['L', 'A', 'N', 'D'],
        a == Action::Flip ==> a.name() == seq!['F', 'L', 'I', 'P'],
        a == Action::Calibrate ==> a.name() == seq!['C', 'A', 'L', 'I', 'B', 'R', 'A', 'T', 'E'],
        a == Action::Headless ==> a.name() == seq!['H', 'E', 'A', 'D', 'L', 'E', 'S', 'S'],
        a == Action::Emergency ==> a.name() == seq!['E', 'M', 'E', 'R', 'G', 'E', 'N', 'C', 'Y'],
        a == Action::TrimReset ==> a.name() == seq!['T', 'R', 'I', 'M', ' ', 'R', 'E', 'S', 'E', 'T'],
{
    reveal_strlit("ARM");
    reveal_strlit("TAKEOFF");
    reveal_strlit("LAND");
    reveal_strlit("FLIP");
    reveal_strlit("CALIBRATE");
    reveal_strlit("HEADLESS");
    reveal_strlit("EMERGENCY");
    reveal_strlit("TRIM RESET");
    assert("ARM"@ =~= seq!['A', 'R', 'M']);
    assert("TAKEOFF"@ =~= seq!['T', 'A', 'K', 'E', 'O', 'F', 'F']);
    assert("LAND"@ =~= seq!['L', 'A', 'N', 'D']);
    assert("FLIP"@ =~= seq!['F', 'L', 'I', 'P']);
    assert("CALIBRATE"@ =~= seq!['C', 'A', 'L', 'I', 'B', 'R', 'A', 'T', 'E']);
    assert("HEADLESS"@ =~= seq!['H', 'E', 'A', 'D', 'L', 'E', 'S', 'S']);
    assert("EMERGENCY"@ =~= seq!['E', 'M', 'E', 'R', 'G', 'E', 'N', 'C', 'Y']);
    assert("TRIM RESET"@ =~= seq!['T', 'R', 'I', 'M', ' ', 'R', 'E', 'S', 'E', 'T']);
}

} // verus!
