//! Taking letters out of a mailbox: which are ours, what becomes of the others,
//! and how full the mailbox is.

use crate::chatmail::letter;
use crate::runner::{Transport, TransportError, TransportEvent};
use crate::text;
use vstd::prelude::*;
use vstd::string::*;

verus! {

broadcast use vstd::string::group_string_axioms;

/// The unit that servers count a mailbox in, in bytes.
pub const QUOTA_UNIT: u64 = 1024;

/// How often a server that cannot call us is asked, in seconds.
pub const POLL_INTERVAL_SECS: u64 = 60;

/// The mailbox that letters come to.
pub const INBOX: &'static str = "INBOX";

/// What is searched for: the letters that nobody saw.
pub const UNSEEN: &'static str = "UNSEEN";

/// What is fetched of a letter: all of it, without marking it as seen.
pub const FETCH: &'static str = "(UID BODY.PEEK[])";

/// How a letter is marked that is not ours.
pub const MARK_SEEN: &'static str = "+FLAGS (\\Seen)";

/// How a letter is marked that was read.
pub const MARK_DELETED: &'static str = "+FLAGS (\\Deleted)";

/// What a server can do that we are in at.
#[derive(Debug, Clone, Copy, PartialEq, Eq)]
pub struct Receiver {
    /// It calls us when there is news.
    pub idle: bool,
    /// It says how full the mailbox is.
    pub quota: bool,
}

/// How to wait for news.
#[derive(Debug, Clone, Copy, PartialEq, Eq, Structural)]
pub enum Wait {
    /// Until the server calls.
    Idle,
    /// For `POLL_INTERVAL_SECS`.
    Poll,
}

impl Receiver {
    /// A server that said what it can do: whether it calls, and whether it says
    /// how full the mailbox is. One that did not say is taken to do neither.
    pub fn login(capabilities: Option<(bool, bool)>) -> (r: Receiver)
        ensures
            r == match capabilities {
                Some((idle, quota)) => Receiver { idle, quota },
                None => Receiver { idle: false, quota: false },
            },
    {
        match capabilities {
            Some((idle, quota)) => Receiver { idle, quota },
            None => Receiver { idle: false, quota: false },
        }
    }

    /// How to wait for news.
    pub fn wait_for_news(&self) -> (r: Wait)
        ensures
            r == if self.idle {
                Wait::Idle
            } else {
                Wait::Poll
            },
    {
        if self.idle {
            Wait::Idle
        } else {
            Wait::Poll
        }
    }

    /// Whether the server is asked how full the mailbox is.
    pub fn asks_quota(&self) -> (r: bool)
        ensures
            r == self.quota,
    {
        self.quota
    }

    /// How full the mailbox is and may be, in bytes, where the server was asked
    /// and answered this.
    pub fn mailbox_quota(&self, answer: Option<Vec<QuotaResource>>) -> (r: Option<(u64, u64)>)
        ensures
            r == match answer {
                Some(resources) => if self.quota {
                    quota_from(resources@, 0)
                } else {
                    None
                },
                None => None,
            },
    {
        match answer {
            Some(resources) => {
                if self.quota {
                    quota_of(&resources)
                } else {
                    None
                }
            },
            None => None,
        }
    }
}

/// Something that a server limits.
#[derive(Debug, Clone, Copy, PartialEq, Eq)]
pub struct QuotaResource {
    /// Whether it is the room in the mailbox.
    pub storage: bool,
    pub usage: u64,
    pub limit: u64,
}

/// A number of units in bytes, as far as 64 bits go.
pub open spec fn in_bytes(units: u64) -> u64 {
    if units * QUOTA_UNIT > u64::MAX {
        u64::MAX
    } else {
        (units * QUOTA_UNIT) as u64
    }
}

/// How full the mailbox is and may be, in bytes, by the resources from `i` on:
/// the first that is room in the mailbox says, and without a limit nothing is
/// said.
pub open spec fn quota_from(resources: Seq<QuotaResource>, i: int) -> Option<(u64, u64)>
    decreases resources.len() - i,
{
    if i < 0 || i >= resources.len() {
        None
    } else if !resources[i].storage {
        quota_from(resources, i + 1)
    } else if resources[i].limit == 0 {
        None
    } else {
        Some((in_bytes(resources[i].usage), in_bytes(resources[i].limit)))
    }
}

/// A number of units in bytes, as far as 64 bits go.
fn bytes_of(units: u64) -> (n: u64)
    ensures
        n == in_bytes(units),
{
    match units.checked_mul(QUOTA_UNIT) {
        Some(n) => n,
        None => u64::MAX,
    }
}

/// How full the mailbox is and may be, in bytes.
fn quota_of(resources: &Vec<QuotaResource>) -> (r: Option<(u64, u64)>)
    ensures
        r == quota_from(resources@, 0),
{
    let mut i: usize = 0;
    while i < resources.len()
        invariant
            i <= resources@.len(),
            quota_from(resources@, 0) == quota_from(resources@, i as int),
        decreases resources@.len() - i,
    {
        let one = resources[i];
        if one.storage {
            if one.limit == 0 {
                return None;
            }
            return Some((bytes_of(one.usage), bytes_of(one.limit)));
        }
        i = i + 1;
    }
    None
}

/// The numbers stand in ascending order.
pub open spec fn ascending(uids: Seq<u32>) -> bool {
    forall|i: int, j: int| 0 <= i < j < uids.len() ==> uids[i] <= uids[j]
}

/// The numbers in ascending order: the same ones, each as often.
pub fn sort_uids(uids: &Vec<u32>) -> (sorted: Vec<u32>)
    ensures
        ascending(sorted@),
        sorted@.to_multiset() == uids@.to_multiset(),
{
    let mut sorted: Vec<u32> = Vec::new();
    let mut i: usize = 0;
    assert(uids@.subrange(0, 0) =~= sorted@);
    while i < uids.len()
        invariant
            i <= uids@.len(),
            ascending(sorted@),
            sorted@.to_multiset() == uids@.subrange(0, i as int).to_multiset(),
        decreases uids@.len() - i,
    {
        let uid: u32 = uids[i];
        let mut at: usize = sorted.len();
        while at > 0 && sorted[at - 1] > uid
            invariant
                at <= sorted@.len(),
                forall|k: int| at <= k < sorted@.len() ==> sorted@[k] > uid,
            decreases at,
        {
            at = at - 1;
        }
        let ghost before = sorted@;
        proof {
            vstd::seq_lib::to_multiset_insert(before, at as int, uid);
            let upto = uids@.subrange(0, i as int + 1);
            assert(upto =~= uids@.subrange(0, i as int).push(uid));
            vstd::seq_lib::to_multiset_insert(uids@.subrange(0, i as int), i as int, uid);
            assert(uids@.subrange(0, i as int).insert(i as int, uid) =~= upto);
        }
        sorted.insert(at, uid);
        assert(ascending(sorted@)) by {
            assert forall|a: int, b: int| 0 <= a < b < sorted@.len() implies sorted@[a]
                <= sorted@[b] by {
                let a2 = if a < at {
                    a
                } else {
                    a - 1
                };
                let b2 = if b < at {
                    b
                } else {
                    b - 1
                };
                if a != at {
                    assert(sorted@[a] == before[a2]);
                }
                if b != at {
                    assert(sorted@[b] == before[b2]);
                }
                if b == at && at > 0 {
                    assert(before[at - 1] <= uid);
                }
            }
        }
        i = i + 1;
    }
    assert(uids@.subrange(0, i as int) =~= uids@);
    sorted
}

/// Numbers in a list, commas between them.
pub open spec fn list_text(uids: Seq<u32>) -> Seq<char>
    decreases uids.len(),
{
    if uids.len() == 0 {
        seq![]
    } else if uids.len() == 1 {
        text::decimal_text(uids[0] as nat)
    } else {
        list_text(uids.drop_last()) + ","@ + text::decimal_text(uids.last() as nat)
    }
}

/// Numbers in a list, commas between them.
pub fn uid_list(uids: &Vec<u32>) -> (s: String)
    ensures
        s@ == list_text(uids@),
{
    let mut s = String::new();
    let mut i: usize = 0;
    assert(s@ =~= list_text(uids@.subrange(0, 0)));
    while i < uids.len()
        invariant
            i <= uids@.len(),
            s@ == list_text(uids@.subrange(0, i as int)),
        decreases uids@.len() - i,
    {
        let ghost upto = uids@.subrange(0, i as int + 1);
        assert(upto.drop_last() =~= uids@.subrange(0, i as int));
        if i > 0 {
            s.append(",");
        }
        s.append(text::decimal(uids[i] as u64).as_str());
        assert(s@ =~= list_text(upto));
        i = i + 1;
    }
    assert(uids@.subrange(0, i as int) =~= uids@);
    s
}

/// A letter as it came from the mailbox.
#[derive(Debug, PartialEq, Eq)]
pub struct Letter {
    pub uid: Option<u32>,
    pub body: Option<Vec<u8>>,
}

/// What a letter is to us.
pub enum Kind {
    /// It carries these frames.
    Ours(u32, Seq<Seq<u8>>),
    /// It carries none: it stays in the mailbox, and is marked as seen.
    Foreign(u32),
    /// It has no number, so nothing can be done with it.
    Nameless,
}

/// What a letter is to us: ours where it can be read.
pub open spec fn kind_of(letter: Letter) -> Kind {
    match letter.uid {
        None => Kind::Nameless,
        Some(uid) => match letter.body {
            None => Kind::Foreign(uid),
            Some(body) => match letter::frames_of(body@) {
                Ok(frames) => Kind::Ours(uid, frames),
                Err(_) => Kind::Foreign(uid),
            },
        },
    }
}

/// The frames in the letters, in order.
pub open spec fn frames_taken(letters: Seq<Letter>) -> Seq<Seq<u8>>
    decreases letters.len(),
{
    if letters.len() == 0 {
        seq![]
    } else {
        let before = frames_taken(letters.drop_last());
        match kind_of(letters.last()) {
            Kind::Ours(_, frames) => before + frames,
            _ => before,
        }
    }
}

/// The letters that are ours, in order.
pub open spec fn ours_taken(letters: Seq<Letter>) -> Seq<u32>
    decreases letters.len(),
{
    if letters.len() == 0 {
        seq![]
    } else {
        let before = ours_taken(letters.drop_last());
        match kind_of(letters.last()) {
            Kind::Ours(uid, _) => before.push(uid),
            _ => before,
        }
    }
}

/// The letters that are not ours, in order.
pub open spec fn foreign_taken(letters: Seq<Letter>) -> Seq<u32>
    decreases letters.len(),
{
    if letters.len() == 0 {
        seq![]
    } else {
        let before = foreign_taken(letters.drop_last());
        match kind_of(letters.last()) {
            Kind::Foreign(uid) => before.push(uid),
            _ => before,
        }
    }
}

/// What to do with the letters in a mailbox: hand the frames over, then mark the
/// foreign letters as seen, then delete our own.
#[derive(Debug, PartialEq, Eq)]
pub struct Taken {
    pub frames: Vec<Vec<u8>>,
    pub foreign: Vec<u32>,
    pub ours: Vec<u32>,
}

/// Goes through the letters in a mailbox.
pub fn take(letters: &Vec<Letter>) -> (r: Taken)
    ensures
        letter::contents(r.frames@) == frames_taken(letters@),
        r.ours@ == ours_taken(letters@),
        r.foreign@ == foreign_taken(letters@),
{
    let mut frames: Vec<Vec<u8>> = Vec::new();
    let mut ours: Vec<u32> = Vec::new();
    let mut foreign: Vec<u32> = Vec::new();
    let mut i: usize = 0;
    assert(letter::contents(frames@) =~= seq![]);
    while i < letters.len()
        invariant
            i <= letters@.len(),
            letter::contents(frames@) == frames_taken(letters@.subrange(0, i as int)),
            ours@ == ours_taken(letters@.subrange(0, i as int)),
            foreign@ == foreign_taken(letters@.subrange(0, i as int)),
        decreases letters@.len() - i,
    {
        let ghost upto = letters@.subrange(0, i as int + 1);
        assert(upto.drop_last() =~= letters@.subrange(0, i as int));
        assert(upto.last() == letters@[i as int]);
        if let Some(uid) = letters[i].uid {
            match &letters[i].body {
                None => {
                    foreign.push(uid);
                },
                Some(body) => {
                    match letter::parse_message(body.as_slice()) {
                        Ok(mut found) => {
                            let ghost before = frames@;
                            let ghost more = found@;
                            frames.append(&mut found);
                            assert(letter::contents(frames@) =~= letter::contents(before)
                                + letter::contents(more));
                            ours.push(uid);
                        },
                        Err(_) => {
                            foreign.push(uid);
                        },
                    }
                },
            }
        }
        i = i + 1;
    }
    assert(letters@.subrange(0, i as int) =~= letters@);
    Taken { frames, foreign, ours }
}

/// Something to do in the mailbox.
#[derive(Debug, PartialEq, Eq)]
pub enum Chore {
    /// Mark these letters as seen.
    Seen(String),
    /// Mark these letters as deleted.
    Deleted(String),
    /// Clear away what is marked as deleted.
    Expunge,
}

/// The chores mark the foreign letters as seen, then delete our own, and are
/// nothing else.
pub open spec fn tidies(chores: Seq<Chore>, foreign: Seq<u32>, ours: Seq<u32>) -> bool {
    let seen: nat = if foreign.len() > 0 {
        1
    } else {
        0
    };
    &&& chores.len() == if ours.len() > 0 {
        seen + 2
    } else {
        seen
    }
    &&& foreign.len() > 0 ==> (chores[0] matches Chore::Seen(list) && list@ == list_text(foreign))
    &&& ours.len() > 0 ==> (chores[seen as int] matches Chore::Deleted(list) && list@
        == list_text(ours)) && chores[seen as int + 1] == Chore::Expunge
}

impl Taken {
    /// What to do in the mailbox once the frames were handed over, in this order.
    /// Where nobody was there to hear them all, nothing is: the letters come again.
    pub fn handed(&self, heard: bool) -> (chores: Vec<Chore>)
        ensures
            heard ==> tidies(chores@, self.foreign@, self.ours@),
            !heard ==> chores@.len() == 0,
    {
        let mut chores: Vec<Chore> = Vec::new();
        if !heard {
            return chores;
        }
        if self.foreign.len() > 0 {
            chores.push(Chore::Seen(uid_list(&self.foreign)));
        }
        if self.ours.len() > 0 {
            chores.push(Chore::Deleted(uid_list(&self.ours)));
            chores.push(Chore::Expunge);
        }
        chores
    }
}

/// The news of a frame that came by mail: a letter does not say who sent it.
pub fn received(frame: Vec<u8>) -> (event: TransportEvent)
    ensures
        event == (TransportEvent::Received {
            via: Transport::Mail,
            peer_hint: None,
            link: None,
            frame,
        }),
{
    TransportEvent::Received { via: Transport::Mail, peer_hint: None, link: None, frame }
}

/// The letters to fetch: a list of what was found, or nothing where nothing was.
pub fn wanted(found: &Vec<u32>) -> (r: Option<String>)
    ensures
        r is None <==> found@.len() == 0,
        r matches Some(list) ==> exists|uids: Seq<u32>|
            ascending(uids) && uids.to_multiset() == found@.to_multiset() && list@
                == #[trigger] list_text(uids),
{
    if found.len() == 0 {
        return None;
    }
    let uids = sort_uids(found);
    Some(uid_list(&uids))
}

/// Where receiving letters fails.
#[derive(Debug, Clone, Copy, PartialEq, Eq, Structural)]
pub enum Stage {
    Greeting,
    Login,
    Select,
    Search,
    Fetch,
    FetchEnd,
    Mark,
    MarkEnd,
    Expunge,
    ExpungeEnd,
    IdleBegin,
    IdleWait,
    IdleEnd,
}

impl Stage {
    /// What failed, in words.
    pub open spec fn words(&self) -> Seq<char> {
        match self {
            Stage::Greeting => "IMAP не ответил: "@,
            Stage::Login => "вход в почту отвергнут: "@,
            Stage::Select => "ящик не открылся: "@,
            Stage::Search => "поиск в ящике не вышел: "@,
            Stage::Fetch => "выборка не вышла: "@,
            Stage::FetchEnd => "письмо не дочиталось: "@,
            Stage::Mark => "отметка не поставилась: "@,
            Stage::MarkEnd => "отметка не дочиталась: "@,
            Stage::Expunge => "уборка ящика не вышла: "@,
            Stage::ExpungeEnd => "уборка ящика не дочиталась: "@,
            Stage::IdleBegin => "IDLE не начался: "@,
            Stage::IdleWait => "IDLE оборвался: "@,
            Stage::IdleEnd => "IDLE не закончился: "@,
        }
    }

    /// The refusal, with what the server or the connection said.
    pub fn refused(&self, error: &str) -> (r: TransportError)
        ensures
            r matches TransportError::Refused(reason) && reason@ == self.words() + error@,
    {
        let words = match self {
            Stage::Greeting => "IMAP не ответил: ",
            Stage::Login => "вход в почту отвергнут: ",
            Stage::Select => "ящик не открылся: ",
            Stage::Search => "поиск в ящике не вышел: ",
            Stage::Fetch => "выборка не вышла: ",
            Stage::FetchEnd => "письмо не дочиталось: ",
            Stage::Mark => "отметка не поставилась: ",
            Stage::MarkEnd => "отметка не дочиталась: ",
            Stage::Expunge => "уборка ящика не вышла: ",
            Stage::ExpungeEnd => "уборка ящика не дочиталась: ",
            Stage::IdleBegin => "IDLE не начался: ",
            Stage::IdleWait => "IDLE оборвался: ",
            Stage::IdleEnd => "IDLE не закончился: ",
        };
        let mut reason = words.to_owned();
        reason.append(error);
        TransportError::Refused(reason)
    }
}

/// The refusal of a server that hung up in place of a greeting.
pub fn silent() -> (r: TransportError)
    ensures
        r matches TransportError::Refused(reason) && reason@
            == "IMAP молчит вместо приветствия"@,
{
    TransportError::Refused("IMAP молчит вместо приветствия".to_owned())
}

/// No letter is deleted that was not read, and no frame of a deleted letter is
/// lost: its frames are among those handed over.
pub proof fn lemma_only_read_letters_go(letters: Seq<Letter>, i: int)
    requires
        0 <= i < ours_taken(letters).len(),
    ensures
        exists|k: int|
            0 <= k < letters.len() && ((#[trigger] kind_of(letters[k])) matches Kind::Ours(
                uid,
                frames,
            ) && uid == ours_taken(letters)[i] && text::occurs(frames_taken(letters), frames)),
    decreases letters.len(),
{
    let fewer = letters.drop_last();
    let before = ours_taken(fewer);
    let last = letters.len() - 1;
    let all = frames_taken(letters);
    let earlier = frames_taken(fewer);
    if i < before.len() {
        lemma_only_read_letters_go(fewer, i);
        let k = choose|k: int|
            0 <= k < fewer.len() && ((#[trigger] kind_of(fewer[k])) matches Kind::Ours(uid, frames)
                && uid == before[i] && text::occurs(earlier, frames));
        let frames = kind_of(fewer[k])->Ours_1;
        let at = choose|at: int| text::occurs_at(earlier, frames, at);
        assert(fewer[k] == letters[k]);
        assert(all.subrange(at, at + frames.len()) =~= earlier.subrange(at, at + frames.len()));
        assert(text::occurs_at(all, frames, at));
        assert(kind_of(letters[k]) is Ours);
    } else {
        let frames = kind_of(letters.last())->Ours_1;
        let at = earlier.len() as int;
        assert(all.subrange(at, at + frames.len()) =~= frames);
        assert(text::occurs_at(all, frames, at));
        assert(kind_of(letters[last]) is Ours);
    }
}

/// How full the mailbox is, is what the first resource says that is room in it, in
/// units of a kibibyte, or the most that can be said where that is more; one without
/// a limit says nothing.
pub proof fn lemma_the_room_in_the_mailbox_is_told(resources: Seq<QuotaResource>, from: int, k: int)
    requires
        0 <= from <= k < resources.len(),
        resources[k].storage,
        forall|i: int| from <= i < k ==> !(#[trigger] resources[i]).storage,
    ensures
        quota_from(resources, from) is None <==> resources[k].limit == 0,
        quota_from(resources, from) matches Some((used, limit)) ==> {
            &&& resources[k].usage * 1024 <= u64::MAX ==> used == resources[k].usage * 1024
            &&& resources[k].usage * 1024 > u64::MAX ==> used == u64::MAX
            &&& resources[k].limit * 1024 <= u64::MAX ==> limit == resources[k].limit * 1024
            &&& resources[k].limit * 1024 > u64::MAX ==> limit == u64::MAX
        },
    decreases k - from,
{
    if from < k {
        assert(!resources[from].storage);
        lemma_the_room_in_the_mailbox_is_told(resources, from + 1, k);
    }
}

/// Where no resource is room in the mailbox, nothing is told of it.
pub proof fn lemma_no_room_is_told_without_a_word_on_it(resources: Seq<QuotaResource>, from: int)
    requires
        0 <= from,
        forall|i: int| from <= i < resources.len() ==> !(#[trigger] resources[i]).storage,
    ensures
        quota_from(resources, from) is None,
    decreases resources.len() - from,
{
    if from < resources.len() {
        assert(!resources[from].storage);
        lemma_no_room_is_told_without_a_word_on_it(resources, from + 1);
    }
}

/// A list of numbers is each of them in decimal digits, with one comma between what
/// stands in front and what stands behind.
pub proof fn lemma_a_list_is_its_numbers(front: Seq<u32>, back: Seq<u32>, uid: u32)
    ensures
        list_text(seq![]) == Seq::<char>::empty(),
        list_text(seq![uid]) == text::decimal_text(uid as nat),
        front.len() > 0 && back.len() > 0 ==> list_text(front + back) == list_text(front) + seq![
            ',',
        ] + list_text(back),
    decreases back.len(),
{
    reveal_strlit(",");
    assert(","@ =~= seq![',']);
    if front.len() > 0 && back.len() > 0 {
        let shorter = back.drop_last();
        assert((front + back).drop_last() =~= front + shorter);
        assert((front + back).last() == back.last());
        if shorter.len() > 0 {
            lemma_a_list_is_its_numbers(front, shorter, uid);
        } else {
            assert(front + shorter =~= front);
            assert(back[0] == back.last());
        }
        assert(list_text(front + back) =~= list_text(front) + seq![','] + list_text(back));
    }
}

/// Ours are the letters that have a number and can be read, each by its number and in
/// their order; foreign are those that have a number and cannot, likewise. One
/// without a number is neither.
pub proof fn lemma_each_letter_is_ours_or_foreign(letters: Seq<Letter>)
    ensures
        ours_taken(letters) == letters.filter(
            |l: Letter| l.uid is Some && l.body is Some && letter::frames_of(l.body->0@) is Ok,
        ).map_values(|l: Letter| l.uid->0),
        foreign_taken(letters) == letters.filter(
            |l: Letter| l.uid is Some && !(l.body is Some && letter::frames_of(l.body->0@) is Ok),
        ).map_values(|l: Letter| l.uid->0),
    decreases letters.len(),
{
    reveal(Seq::filter);
    let ours = |l: Letter| l.uid is Some && l.body is Some && letter::frames_of(l.body->0@) is Ok;
    let foreign = |l: Letter|
        l.uid is Some && !(l.body is Some && letter::frames_of(l.body->0@) is Ok);
    let number = |l: Letter| l.uid->0;
    if letters.len() > 0 {
        let fewer = letters.drop_last();
        lemma_each_letter_is_ours_or_foreign(fewer);
        let a = fewer.filter(ours);
        let b = fewer.filter(foreign);
        assert(a.push(letters.last()).map_values(number) =~= a.map_values(number).push(
            number(letters.last()),
        ));
        assert(b.push(letters.last()).map_values(number) =~= b.map_values(number).push(
            number(letters.last()),
        ));
    }
    assert(ours_taken(letters) =~= letters.filter(ours).map_values(number));
    assert(foreign_taken(letters) =~= letters.filter(foreign).map_values(number));
}

/// The frames handed over are those of the letters that are ours, letter by letter:
/// all of each, in its order, and nothing of any other.
pub proof fn lemma_frames_come_letter_by_letter(front: Seq<Letter>, back: Seq<Letter>, l: Letter)
    ensures
        frames_taken(front + back) == frames_taken(front) + frames_taken(back),
        frames_taken(seq![l]) == if l.uid is Some && l.body is Some && letter::frames_of(
            l.body->0@,
        ) is Ok {
            letter::frames_of(l.body->0@)->Ok_0
        } else {
            seq![]
        },
        frames_taken(seq![]) == Seq::<Seq<u8>>::empty(),
    decreases back.len(),
{
    let one = seq![l];
    assert(one.drop_last() =~= seq![]);
    assert(frames_taken(one.drop_last()) =~= seq![]);
    assert(frames_taken(one) =~= if l.uid is Some && l.body is Some && letter::frames_of(
        l.body->0@,
    ) is Ok {
        letter::frames_of(l.body->0@)->Ok_0
    } else {
        seq![]
    });
    if back.len() == 0 {
        assert(front + back =~= front);
        assert(frames_taken(front) + frames_taken(back) =~= frames_taken(front));
    } else {
        lemma_frames_come_letter_by_letter(front, back.drop_last(), l);
        assert((front + back).drop_last() =~= front + back.drop_last());
        assert((front + back).last() == back.last());
        assert(frames_taken(front + back) =~= frames_taken(front) + frames_taken(back));
    }
}

/// Foreign letters are only ever marked as seen, and only our own are deleted; what
/// is deleted is cleared away last. A mailbox in which nothing was found is left
/// alone.
pub proof fn lemma_only_our_own_are_deleted(chores: Seq<Chore>, foreign: Seq<u32>, ours: Seq<u32>)
    requires
        tidies(chores, foreign, ours),
    ensures
        foreign.len() == 0 && ours.len() == 0 ==> chores.len() == 0,
        forall|i: int|
            0 <= i < chores.len() ==> {
                &&& (#[trigger] chores[i] is Seen ==> foreign.len() > 0 && i == 0
                    && chores[i]->Seen_0@ == list_text(foreign))
                &&& (chores[i] is Deleted ==> ours.len() > 0 && i == chores.len() - 2
                    && chores[i]->Deleted_0@ == list_text(ours))
                &&& (chores[i] is Expunge ==> ours.len() > 0 && i == chores.len() - 1)
            },
        foreign.len() > 0 ==> chores[0] is Seen,
        ours.len() > 0 ==> chores.last() is Expunge && chores[chores.len() - 2] is Deleted,
{
}

} // verus!
