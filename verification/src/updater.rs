//! The self-update: which release is newer, which artifact belongs to the
//! running platform, and the steps that replace the running executable.
//!
//! The updater does no transfer and touches no file. It is told what
//! happened, as an `Event`, and answers what to do next, as an `Action`.

use crate::archive::{unpack, unpacked, zip_entry};
use crate::error::GenericError;
use crate::message_digest::{checksum_matches, hex_lower, md5_of};
use vstd::prelude::*;
use vstd::string::StringSliceAdditionalSpecFns;
use vstd::utf8::encode_utf8;

verus! {

/// The version of this program.
pub const CURRENT_VERSION: u64 = 202011120913;

/// The checksums of a release's artifacts, in lower-case hex, by platform.
#[derive(Clone, Debug, PartialEq, Eq)]
pub struct Checksum {
    pub linux: String,
    pub windows: String,
    pub macos: String,
}

/// The newest release: its version and the checksums of its artifacts.
#[derive(Clone, Debug, PartialEq, Eq)]
pub struct Latest {
    pub version: u64,
    pub checksum: Checksum,
}

/// One artifact of a release.
#[derive(Clone, Debug, PartialEq, Eq)]
pub struct ReleaseAssets {
    pub name: String,
    pub size: u32,
    pub browser_download_url: String,
}

/// The artifacts of a release.
#[derive(Clone, Debug, PartialEq, Eq)]
pub struct Release {
    pub assets: Vec<ReleaseAssets>,
}

/// The platforms that releases are made for.
#[derive(Clone, Copy, Debug, PartialEq, Eq, Structural)]
pub enum Platform {
    Linux,
    Macos,
    Windows,
}

impl Platform {
    /// The word in an artifact's name that marks it as made for the
    /// platform.
    pub open spec fn keyword(self) -> Seq<char> {
        match self {
            Platform::Linux => "linux"@,
            Platform::Macos => "macos"@,
            Platform::Windows => "windows"@,
        }
    }

    /// The name of the executable inside the platform's archive.
    pub open spec fn entry(self) -> Seq<char> {
        match self {
            Platform::Linux => "bebasin"@,
            Platform::Macos => "bebasin"@,
            Platform::Windows => "bebasin.exe"@,
        }
    }

    /// Whether a file needs a permission bit to be executable.
    pub open spec fn posix(self) -> bool {
        self != Platform::Windows
    }

    /// The checksum that a release declares for the platform's artifact.
    pub open spec fn declared(self, checksum: Checksum) -> Seq<u8> {
        match self {
            Platform::Linux => encode_utf8(checksum.linux@),
            Platform::Macos => encode_utf8(checksum.macos@),
            Platform::Windows => encode_utf8(checksum.windows@),
        }
    }

    /// The word in an artifact's name that marks it as made for the
    /// platform.
    pub fn tag(self) -> (r: &'static str)
        ensures
            r@ == self.keyword(),
    {
        match self {
            Platform::Linux => "linux",
            Platform::Macos => "macos",
            Platform::Windows => "windows",
        }
    }

    /// The name of the executable inside the platform's archive.
    pub fn entry_name(self) -> (r: &'static str)
        ensures
            r@ == self.entry(),
    {
        match self {
            Platform::Linux => "bebasin",
            Platform::Macos => "bebasin",
            Platform::Windows => "bebasin.exe",
        }
    }

    /// Whether a file needs a permission bit to be executable.
    pub fn is_posix(self) -> (r: bool)
        ensures
            r == self.posix(),
    {
        match self {
            Platform::Windows => false,
            _ => true,
        }
    }

    /// The checksum that a release declares for the platform's artifact.
    pub fn checksum_of(self, checksum: &Checksum) -> (r: &[u8])
        ensures
            r@ == self.declared(*checksum),
    {
        match self {
            Platform::Linux => checksum.linux.as_str().as_bytes(),
            Platform::Macos => checksum.macos.as_str().as_bytes(),
            Platform::Windows => checksum.windows.as_str().as_bytes(),
        }
    }
}

/// Whether `pat` occurs in `s` as a run of consecutive bytes.
pub open spec fn has_infix(s: Seq<u8>, pat: Seq<u8>) -> bool {
    exists|i: int| 0 <= i <= s.len() - pat.len() && #[trigger] s.subrange(i, i + pat.len()) == pat
}

/// Whether `pat` stands in `s` at position `i`.
pub fn matches_at(s: &[u8], pat: &[u8], i: usize) -> (r: bool)
    requires
        i + pat@.len() <= s@.len(),
    ensures
        r == (s@.subrange(i as int, i + pat@.len()) == pat@),
{
    let m: usize = pat.len();
    let n: usize = s.len();
    let mut k: usize = 0;
    while k < m
        invariant
            m == pat@.len(),
            n == s@.len(),
            i + m <= n,
            k <= m,
            forall|j: int| 0 <= j < k ==> s@[i + j] == pat@[j],
        decreases m - k,
    {
        if s[i + k] != pat[k] {
            assert(s@.subrange(i as int, i + m)[k as int] != pat@[k as int]);
            return false;
        }
        k = k + 1;
    }
    assert(s@.subrange(i as int, i + m) =~= pat@);
    true
}

/// Looks for `pat` in `s`.
pub fn find_infix(s: &[u8], pat: &[u8]) -> (r: bool)
    ensures
        r == has_infix(s@, pat@),
{
    let n: usize = s.len();
    let m: usize = pat.len();
    if m > n {
        return false;
    }
    let last: usize = n - m;
    let mut i: usize = 0;
    loop
        invariant
            n == s@.len(),
            m == pat@.len(),
            last == n - m,
            i <= last,
            forall|j: int| 0 <= j < i ==> #[trigger] s@.subrange(j, j + m) != pat@,
        decreases last - i,
    {
        if matches_at(s, pat, i) {
            return true;
        }
        if i == last {
            return false;
        }
        i = i + 1;
    }
}

/// Whether an artifact is made for a platform: its name holds the
/// platform's word.
pub open spec fn made_for(asset: ReleaseAssets, platform: Platform) -> bool {
    has_infix(encode_utf8(asset.name@), encode_utf8(platform.keyword()))
}

/// The position of the first artifact made for `platform`, or the number of
/// artifacts if there is none.
pub open spec fn first_asset(assets: Seq<ReleaseAssets>, platform: Platform) -> int
    decreases assets.len(),
{
    if assets.len() == 0 {
        0
    } else {
        let before = first_asset(assets.drop_last(), platform);
        if before < assets.len() - 1 {
            before
        } else if made_for(assets.last(), platform) {
            assets.len() - 1
        } else {
            assets.len() as int
        }
    }
}

/// An artifact found among the first `k` stays the first when more follow.
pub proof fn lemma_first_asset_stays(assets: Seq<ReleaseAssets>, platform: Platform, k: int)
    requires
        0 <= k <= assets.len(),
        first_asset(assets.take(k), platform) < k,
    ensures
        first_asset(assets, platform) == first_asset(assets.take(k), platform),
    decreases assets.len() - k,
{
    if k < assets.len() {
        assert(assets.take(k + 1).drop_last() =~= assets.take(k));
        lemma_first_asset_stays(assets, platform, k + 1);
    } else {
        assert(assets.take(k) =~= assets);
    }
}

impl Release {
    /// The position of the first artifact made for `platform`, or the number
    /// of artifacts if there is none.
    pub fn select(&self, platform: Platform) -> (i: usize)
        ensures
            i == first_asset(self.assets@, platform),
            i <= self.assets@.len(),
    {
        let n: usize = self.assets.len();
        let word = platform.tag();
        let mut i: usize = 0;
        assert(self.assets@.take(0) =~= Seq::<ReleaseAssets>::empty());
        while i < n
            invariant
                n == self.assets@.len(),
                i <= n,
                word@ == platform.keyword(),
                first_asset(self.assets@.take(i as int), platform) == i,
            decreases n - i,
        {
            proof {
                assert(self.assets@.take(i + 1).drop_last() =~= self.assets@.take(i as int));
                assert(self.assets@.take(i + 1).last() == self.assets@[i as int]);
            }
            if find_infix(self.assets[i].name.as_str().as_bytes(), word.as_bytes()) {
                proof {
                    lemma_first_asset_stays(self.assets@, platform, i + 1);
                }
                return i;
            }
            i = i + 1;
        }
        assert(self.assets@.take(n as int) =~= self.assets@);
        i
    }
}

/// The permission bits with the owner's execute bit set: the bits of
/// `st_mode` that `nix::sys::stat::Mode` knows (the lowest twelve), and
/// `S_IXUSR`.
#[verifier::external_body]
fn with_owner_exec(st_mode: u32) -> (r: u32)
    ensures
        r == (st_mode & 0xfff) | 0x40,
{
    let mut mode = nix::sys::stat::Mode::from_bits_truncate(st_mode);
    mode.insert(nix::sys::stat::Mode::S_IXUSR);
    mode.bits()
}

/// The mode to give the staged executable, from the mode it has: the same
/// permissions, and the owner may execute it.
pub fn executable_mode(st_mode: u32) -> (r: u32)
    ensures
        r == (st_mode & 0xfff) | 0x40,
        r & 0x40 == 0x40,
{
    let r = with_owner_exec(st_mode);
    assert(((st_mode & 0xfff) | 0x40) & 0x40 == 0x40) by (bit_vector);
    r
}

/// Whether the content of the staging file is the artifact that the
/// release declares.
pub open spec fn integrity(content: Seq<u8>, declared: Seq<u8>) -> Result<(), GenericError> {
    if hex_lower(md5_of(content)) == declared {
        Ok(())
    } else {
        Err(GenericError::IntegrityError)
    }
}

/// Checks the content of the staging file against the declared checksum:
/// its MD5 digest, written in lower-case hex, must be the checksum.
/// Anything else is an `IntegrityError`.
pub fn verify_staged(content: &[u8], declared: &[u8]) -> (r: Result<(), GenericError>)
    ensures
        r == integrity(content@, declared@),
{
    if checksum_matches(content, declared) {
        Ok(())
    } else {
        Err(GenericError::IntegrityError)
    }
}

/// What the staged download turns into: the executable unpacked from it, if
/// the release is known, the checksum is the declared one and the archive
/// holds the platform's executable.
pub open spec fn verdict(content: Seq<u8>, latest: Option<Latest>, platform: Platform) -> Result<
    Seq<u8>,
    GenericError,
> {
    match latest {
        None => Err(GenericError::UnexpectedEvent),
        Some(l) => match integrity(content, platform.declared(l.checksum)) {
            Err(e) => Err(e),
            Ok(()) => unpacked(zip_entry(content, platform.entry())),
        },
    }
}

/// Verifies the staged download and unpacks the executable from it. The
/// archive is not opened unless the checksum is the declared one.
pub fn download_and_stage(content: &[u8], latest: &Option<Latest>, platform: Platform) -> (r:
    Result<Vec<u8>, GenericError>)
    ensures
        match verdict(content@, *latest, platform) {
            Ok(bytes) => r is Ok && r->Ok_0@ == bytes,
            Err(e) => r == Err::<Vec<u8>, GenericError>(e),
        },
{
    match latest {
        None => Err(GenericError::UnexpectedEvent),
        Some(l) => match verify_staged(content, platform.checksum_of(&l.checksum)) {
            Err(e) => Err(e),
            Ok(()) => unpack(content, platform.entry_name()),
        },
    }
}

/// The steps of the swap.
#[derive(Clone, Copy, Debug, PartialEq, Eq, Structural)]
pub enum SwapStep {
    /// Waiting for the mode of the staging file.
    ReadingMode,
    /// Waiting for the staging file to be made executable.
    SettingMode,
    /// Waiting for the running executable to be moved aside.
    MovingAside,
    /// Waiting for the staging file to be moved into the executable's place.
    /// The running executable is out of its place.
    Activating,
    /// Waiting for the old executable to be deleted.
    Cleaning,
}

/// Where an update attempt stands.
#[derive(Clone, Copy, Debug, PartialEq, Eq, Structural)]
pub enum Stage {
    /// Nothing is known yet.
    Idle,
    /// This program is the newest release. The attempt has ended.
    CheckedUpToDate,
    /// There is a newer release; its artifacts are being asked for.
    CheckedOutdated,
    /// The platform's artifact is being fetched.
    Downloading,
    /// The download is being written to the staging file and read back.
    Verifying,
    /// The checksum was the declared one, and the executable unpacked from
    /// the download is being written to the staging file.
    Staged,
    /// The staged executable is being put in place.
    Swapping(SwapStep),
    /// The staged executable is in place. The attempt has ended.
    Swapped,
    /// The attempt has failed and ended.
    Failed,
}

/// What happened since the last action.
#[derive(Debug, PartialEq, Eq)]
pub enum Event {
    /// The newest release was fetched and decoded.
    Latest(Latest),
    /// The artifacts of the release were fetched and decoded.
    Release(Release),
    /// The artifact was fetched, all of it.
    Body(Vec<u8>),
    /// The staging file was written, and this is what it now holds.
    Staged(Vec<u8>),
    /// The mode of the staging file was read.
    Mode(u32),
    /// The action was carried out.
    Done,
    /// The action failed.
    Failure(GenericError),
}

/// What to do next.
#[derive(Debug, PartialEq, Eq)]
pub enum Action {
    /// Nothing: the attempt has ended before.
    Stop,
    /// Fetch and decode the artifacts of the release; answer `Release`.
    FetchRelease,
    /// Fetch the artifact at this address; answer `Body`.
    Download(String),
    /// Write these bytes to the staging file and read the file back; answer
    /// `Staged`.
    WriteStaging(Vec<u8>),
    /// Write these bytes, the unpacked executable, to the staging file;
    /// answer `Done`.
    WriteBinary(Vec<u8>),
    /// Read the mode of the staging file; answer `Mode`.
    ReadMode,
    /// Give the staging file this mode; answer `Done`.
    SetMode(u32),
    /// Rename the running executable to the second temporary path; answer
    /// `Done`.
    MoveAside,
    /// Rename the staging file to the path of the running executable; answer
    /// `Done`.
    Activate,
    /// Delete the second temporary path; answer `Done`.
    CleanUp,
    /// The update is done; nothing is left to do.
    Finish,
    /// Delete the staging file if it exists and report the error.
    Abort(GenericError),
    /// Report the error and touch nothing: the running executable is out of
    /// its place and the staging file holds the only good copy.
    Fatal(GenericError),
}

/// An action, with byte strings in place of vectors.
pub enum ActionView {
    Stop,
    FetchRelease,
    Download(String),
    WriteStaging(Seq<u8>),
    WriteBinary(Seq<u8>),
    ReadMode,
    SetMode(u32),
    MoveAside,
    Activate,
    CleanUp,
    Finish,
    Abort(GenericError),
    Fatal(GenericError),
}

impl View for Action {
    type V = ActionView;

    open spec fn view(&self) -> ActionView {
        match self {
            Action::Stop => ActionView::Stop,
            Action::FetchRelease => ActionView::FetchRelease,
            Action::Download(url) => ActionView::Download(*url),
            Action::WriteStaging(bytes) => ActionView::WriteStaging(bytes@),
            Action::WriteBinary(bytes) => ActionView::WriteBinary(bytes@),
            Action::ReadMode => ActionView::ReadMode,
            Action::SetMode(mode) => ActionView::SetMode(*mode),
            Action::MoveAside => ActionView::MoveAside,
            Action::Activate => ActionView::Activate,
            Action::CleanUp => ActionView::CleanUp,
            Action::Finish => ActionView::Finish,
            Action::Abort(e) => ActionView::Abort(*e),
            Action::Fatal(e) => ActionView::Fatal(*e),
        }
    }
}

impl ActionView {
    /// Whether the action moves an executable: a step of the swap proper.
    pub open spec fn swaps(self) -> bool {
        self is MoveAside || self is Activate
    }
}

/// The updater: the version of this program, the newest release if it is
/// known, and where the attempt stands.
#[derive(Debug, PartialEq, Eq)]
pub struct Updater {
    pub current: u64,
    pub latest: Option<Latest>,
    pub stage: Stage,
}

/// The outcome of one step: the new stage, the release now known, and the
/// action.
pub struct Step {
    pub stage: Stage,
    pub latest: Option<Latest>,
    pub action: ActionView,
}

/// The step that ends the attempt with an error.
pub open spec fn failing(u: Updater, error: GenericError) -> Step {
    if u.stage == Stage::Swapping(SwapStep::Activating) {
        Step { stage: Stage::Failed, latest: u.latest, action: ActionView::Fatal(error) }
    } else {
        Step { stage: Stage::Failed, latest: u.latest, action: ActionView::Abort(error) }
    }
}

/// The step that goes on to `stage` with `action`.
pub open spec fn going(u: Updater, stage: Stage, action: ActionView) -> Step {
    Step { stage, latest: u.latest, action }
}

/// The transitions of the updater.
pub open spec fn step(u: Updater, platform: Platform, event: Event) -> Step {
    match u.stage {
        Stage::CheckedUpToDate | Stage::Swapped | Stage::Failed => going(
            u,
            u.stage,
            ActionView::Stop,
        ),
        _ => match (u.stage, event) {
            (_, Event::Failure(e)) => failing(u, e),
            (Stage::Idle, Event::Latest(l)) => if u.current < l.version {
                Step {
                    stage: Stage::CheckedOutdated,
                    latest: Some(l),
                    action: ActionView::FetchRelease,
                }
            } else {
                Step { stage: Stage::CheckedUpToDate, latest: Some(l), action: ActionView::Stop }
            },
            (Stage::CheckedOutdated, Event::Release(r)) => {
                let i = first_asset(r.assets@, platform);
                if i < r.assets@.len() {
                    going(
                        u,
                        Stage::Downloading,
                        ActionView::Download(r.assets@[i].browser_download_url),
                    )
                } else {
                    failing(u, GenericError::NoAsset)
                }
            },
            (Stage::Downloading, Event::Body(b)) => going(
                u,
                Stage::Verifying,
                ActionView::WriteStaging(b@),
            ),
            (Stage::Verifying, Event::Staged(c)) => match verdict(c@, u.latest, platform) {
                Ok(binary) => going(u, Stage::Staged, ActionView::WriteBinary(binary)),
                Err(e) => failing(u, e),
            },
            (Stage::Staged, Event::Done) => if platform.posix() {
                going(u, Stage::Swapping(SwapStep::ReadingMode), ActionView::ReadMode)
            } else {
                going(u, Stage::Swapping(SwapStep::MovingAside), ActionView::MoveAside)
            },
            (Stage::Swapping(SwapStep::ReadingMode), Event::Mode(m)) => going(
                u,
                Stage::Swapping(SwapStep::SettingMode),
                ActionView::SetMode((m & 0xfff) | 0x40),
            ),
            (Stage::Swapping(SwapStep::SettingMode), Event::Done) => going(
                u,
                Stage::Swapping(SwapStep::MovingAside),
                ActionView::MoveAside,
            ),
            (Stage::Swapping(SwapStep::MovingAside), Event::Done) => going(
                u,
                Stage::Swapping(SwapStep::Activating),
                ActionView::Activate,
            ),
            (Stage::Swapping(SwapStep::Activating), Event::Done) => going(
                u,
                Stage::Swapping(SwapStep::Cleaning),
                ActionView::CleanUp,
            ),
            (Stage::Swapping(SwapStep::Cleaning), Event::Done) => going(
                u,
                Stage::Swapped,
                ActionView::Finish,
            ),
            _ => failing(u, GenericError::UnexpectedEvent),
        },
    }
}

impl Updater {
    /// An updater of this program's version that knows no release yet.
    pub fn new() -> (r: Updater)
        ensures
            r.current == CURRENT_VERSION,
            r.latest is None,
            r.stage == Stage::Idle,
    {
        Updater { current: CURRENT_VERSION, latest: None, stage: Stage::Idle }
    }

    /// Takes note of the newest release, as it was fetched, and hands it
    /// back.
    pub fn get_latest_info(&mut self, fetched: Latest) -> (r: Latest)
        ensures
            final(self).latest == Some(fetched),
            final(self).current == old(self).current,
            final(self).stage == old(self).stage,
            r == fetched,
    {
        let copy = Latest {
            version: fetched.version,
            checksum: Checksum {
                linux: fetched.checksum.linux.clone(),
                windows: fetched.checksum.windows.clone(),
                macos: fetched.checksum.macos.clone(),
            },
        };
        self.latest = Some(fetched);
        copy
    }

    /// Whether the newest release is newer than this program: strictly so.
    pub fn is_updatable(&self) -> (r: bool)
        requires
            self.latest is Some,
        ensures
            r == (self.current < self.latest->0.version),
    {
        match &self.latest {
            Some(latest) => self.current < latest.version,
            None => false,
        }
    }

    fn fail(&mut self, error: GenericError) -> (action: Action)
        ensures
            final(self).stage == failing(*old(self), error).stage,
            final(self).latest == old(self).latest,
            final(self).current == old(self).current,
            action@ == failing(*old(self), error).action,
    {
        let fatal = match self.stage {
            Stage::Swapping(SwapStep::Activating) => true,
            _ => false,
        };
        self.stage = Stage::Failed;
        if fatal {
            Action::Fatal(error)
        } else {
            Action::Abort(error)
        }
    }

    /// Takes one step of an update attempt: told what happened, says what
    /// to do next.
    pub fn process_update(&mut self, platform: Platform, event: Event) -> (action: Action)
        ensures
            final(self).stage == step(*old(self), platform, event).stage,
            final(self).latest == step(*old(self), platform, event).latest,
            final(self).current == old(self).current,
            action@ == step(*old(self), platform, event).action,
    {
        match self.stage {
            Stage::CheckedUpToDate | Stage::Swapped | Stage::Failed => {
                return Action::Stop;
            },
            _ => {},
        }
        match event {
            Event::Failure(e) => self.fail(e),
            Event::Latest(l) => match self.stage {
                Stage::Idle => {
                    let newer = self.current < l.version;
                    self.latest = Some(l);
                    if newer {
                        self.stage = Stage::CheckedOutdated;
                        Action::FetchRelease
                    } else {
                        self.stage = Stage::CheckedUpToDate;
                        Action::Stop
                    }
                },
                _ => self.fail(GenericError::UnexpectedEvent),
            },
            Event::Release(r) => match self.stage {
                Stage::CheckedOutdated => {
                    let i = r.select(platform);
                    if i < r.assets.len() {
                        self.stage = Stage::Downloading;
                        Action::Download(r.assets[i].browser_download_url.clone())
                    } else {
                        self.fail(GenericError::NoAsset)
                    }
                },
                _ => self.fail(GenericError::UnexpectedEvent),
            },
            Event::Body(b) => match self.stage {
                Stage::Downloading => {
                    self.stage = Stage::Verifying;
                    Action::WriteStaging(b)
                },
                _ => self.fail(GenericError::UnexpectedEvent),
            },
            Event::Staged(c) => match self.stage {
                Stage::Verifying => match download_and_stage(c.as_slice(), &self.latest, platform) {
                    Ok(binary) => {
                        self.stage = Stage::Staged;
                        Action::WriteBinary(binary)
                    },
                    Err(e) => self.fail(e),
                },
                _ => self.fail(GenericError::UnexpectedEvent),
            },
            Event::Mode(m) => match self.stage {
                Stage::Swapping(SwapStep::ReadingMode) => {
                    self.stage = Stage::Swapping(SwapStep::SettingMode);
                    Action::SetMode(executable_mode(m))
                },
                _ => self.fail(GenericError::UnexpectedEvent),
            },
            Event::Done => match self.stage {
                Stage::Staged => if platform.is_posix() {
                    self.stage = Stage::Swapping(SwapStep::ReadingMode);
                    Action::ReadMode
                } else {
                    self.stage = Stage::Swapping(SwapStep::MovingAside);
                    Action::MoveAside
                },
                Stage::Swapping(SwapStep::SettingMode) => {
                    self.stage = Stage::Swapping(SwapStep::MovingAside);
                    Action::MoveAside
                },
                Stage::Swapping(SwapStep::MovingAside) => {
                    self.stage = Stage::Swapping(SwapStep::Activating);
                    Action::Activate
                },
                Stage::Swapping(SwapStep::Activating) => {
                    self.stage = Stage::Swapping(SwapStep::Cleaning);
                    Action::CleanUp
                },
                Stage::Swapping(SwapStep::Cleaning) => {
                    self.stage = Stage::Swapped;
                    Action::Finish
                },
                _ => self.fail(GenericError::UnexpectedEvent),
            },
        }
    }
}

/// The updater after one step.
pub open spec fn next(u: Updater, platform: Platform, event: Event) -> Updater {
    Updater {
        current: u.current,
        latest: step(u, platform, event).latest,
        stage: step(u, platform, event).stage,
    }
}

/// The updater after the steps for `events`, in order.
pub open spec fn after(u: Updater, platform: Platform, events: Seq<Event>) -> Updater
    decreases events.len(),
{
    if events.len() == 0 {
        u
    } else {
        next(after(u, platform, events.drop_last()), platform, events.last())
    }
}

/// An attempt that has failed stays failed, whatever happens.
pub proof fn lemma_failed_stays(u: Updater, platform: Platform, events: Seq<Event>)
    requires
        u.stage == Stage::Failed,
    ensures
        after(u, platform, events).stage == Stage::Failed,
    decreases events.len(),
{
    if events.len() > 0 {
        lemma_failed_stays(u, platform, events.drop_last());
    }
}

/// Executables are moved only after the checksum was found right: an
/// action of the swap comes from the stage `Staged` or from a step of the
/// swap, and the stage `Staged` is reached only from `Verifying`, with a
/// staging file whose checksum is the declared one.
pub proof fn lemma_swap_needs_checksum(u: Updater, platform: Platform, event: Event)
    ensures
        step(u, platform, event).action.swaps() ==> u.stage == Stage::Staged
            || u.stage is Swapping,
        step(u, platform, event).stage is Swapping ==> u.stage == Stage::Staged
            || u.stage is Swapping,
        step(u, platform, event).stage == Stage::Staged ==> {
            &&& u.stage == Stage::Verifying
            &&& event is Staged
            &&& u.latest is Some
            &&& integrity(event->Staged_0@, platform.declared(u.latest->0.checksum)) is Ok
        },
{
}

/// A staging file whose checksum is not the declared one ends the attempt with an `IntegrityError`, and no executable is
/// moved then or ever after.
pub proof fn lemma_wrong_checksum_never_swaps(
    u: Updater,
    platform: Platform,
    content: Vec<u8>,
    events: Seq<Event>,
    event: Event,
)
    requires
        u.stage == Stage::Verifying,
        u.latest is Some,
        hex_lower(md5_of(content@)) != platform.declared(u.latest->0.checksum),
    ensures
        step(u, platform, Event::Staged(content)).stage == Stage::Failed,
        step(u, platform, Event::Staged(content)).action == ActionView::Abort(
            GenericError::IntegrityError,
        ),
        after(next(u, platform, Event::Staged(content)), platform, events).stage == Stage::Failed,
        step(
            after(next(u, platform, Event::Staged(content)), platform, events),
            platform,
            event,
        ).action == ActionView::Stop,
{
    lemma_failed_stays(next(u, platform, Event::Staged(content)), platform, events);
}

} // verus!
