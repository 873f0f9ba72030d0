//! The scheduling data: minisymposia, contributed lectures, the scheduler's
//! configuration, the five conflict types and their counts, and solutions.
use vstd::prelude::*;

verus! {

/// A minisymposium (a regular one, or a group of contributed lectures).
#[derive(Clone, Debug)]
pub struct Minisymposium {
    pub id: i32,
    pub title: String,
    pub notes: String,
    pub organizers: Vec<String>,
    pub speakers: Vec<String>,
    pub classification: Vec<i32>,
    pub series_key: Option<String>,
    pub part_number: Option<i32>,
    pub is_cl_minisymposium: bool,
    pub cl_lecture_ids: Vec<i32>,
}

/// A contributed lecture before it is grouped into a minisymposium.
#[derive(Clone, Debug)]
pub struct ContributedLecture {
    pub id: i32,
    pub title: String,
    pub speaker: String,
    pub classification: Vec<i32>,
    pub notes: String,
}

/// A schedule: one entry per time slot, each holding the indices (into the
/// list of all minisymposia) of the minisymposia in that slot, room by room.
pub type Schedule = Vec<Vec<usize>>;

/// The slots of a schedule, as sequences of minisymposium indices.
pub open spec fn slots(schedule: Seq<Vec<usize>>) -> Seq<Seq<usize>> {
    schedule.map_values(|slot: Vec<usize>| slot@)
}

/// Configuration of the hierarchical scheduler: a rank for each of the five
/// conflict types (0 = ignored, 1 = optimised first), and search limits.
#[derive(Debug, Clone)]
pub struct SchedulerConfig {
    pub classification_rank: u8,
    pub speaker_org_rank: u8,
    pub personal_class_rank: u8,
    pub series_room_rank: u8,
    pub series_back_rank: u8,
    /// Strict mode: a step may never increase the count of an
    /// already-optimised (protected) conflict type. Flexible mode tolerates
    /// an increase of up to 2.
    pub strict_hierarchy: bool,
    pub max_solutions_per_level: usize,
    pub parameter_timeout: u64,
    pub random_seed: u64,
    /// Number of parallel time slots.
    pub num_sessions: usize,
    /// Number of rooms per time slot.
    pub num_rooms: usize,
}

impl Default for SchedulerConfig {
    /// Personal conflicts first, then personal-classification, series
    /// back-to-back, series room, and classification last; strict mode;
    /// 8 slots of 12 rooms.
    fn default() -> (c: Self)
        ensures
            c.classification_rank == 5,
            c.speaker_org_rank == 1,
            c.personal_class_rank == 2,
            c.series_room_rank == 4,
            c.series_back_rank == 3,
            c.strict_hierarchy,
            c.max_solutions_per_level == 10,
            c.parameter_timeout == 30,
            c.random_seed == 42,
            c.num_sessions == 8,
            c.num_rooms == 12,
    {
        SchedulerConfig {
            classification_rank: 5,
            speaker_org_rank: 1,
            personal_class_rank: 2,
            series_room_rank: 4,
            series_back_rank: 3,
            strict_hierarchy: true,
            max_solutions_per_level: 10,
            parameter_timeout: 30,
            random_seed: 42,
            num_sessions: 8,
            num_rooms: 12,
        }
    }
}

/// The conflict types that the scheduler optimises.
#[derive(Debug, Clone, Copy, PartialEq, Eq, Hash, Structural)]
pub enum ConflictType {
    Classification,
    SpeakerOrganizer,
    PersonalClassification,
    SeriesSameRoom,
    SeriesBackToBack,
}

/// The rank that `config` gives to `t`.
pub open spec fn rank_of(t: ConflictType, config: SchedulerConfig) -> u8 {
    match t {
        ConflictType::Classification => config.classification_rank,
        ConflictType::SpeakerOrganizer => config.speaker_org_rank,
        ConflictType::PersonalClassification => config.personal_class_rank,
        ConflictType::SeriesSameRoom => config.series_room_rank,
        ConflictType::SeriesBackToBack => config.series_back_rank,
    }
}

/// The display name of a conflict type.
pub open spec fn conflict_type_label(t: ConflictType) -> Seq<char> {
    match t {
        ConflictType::Classification => "Classification Conflicts"@,
        ConflictType::SpeakerOrganizer => "Speaker/Organizer Conflicts"@,
        ConflictType::PersonalClassification => "Personal-Classification Conflicts"@,
        ConflictType::SeriesSameRoom => "Series Same-Room Conflicts"@,
        ConflictType::SeriesBackToBack => "Series Back-to-Back Conflicts"@,
    }
}

impl ConflictType {
    /// The rank of this conflict type in `config`.
    pub fn get_rank(&self, config: &SchedulerConfig) -> (r: u8)
        ensures
            r == rank_of(*self, *config),
    {
        match self {
            ConflictType::Classification => config.classification_rank,
            ConflictType::SpeakerOrganizer => config.speaker_org_rank,
            ConflictType::PersonalClassification => config.personal_class_rank,
            ConflictType::SeriesSameRoom => config.series_room_rank,
            ConflictType::SeriesBackToBack => config.series_back_rank,
        }
    }

    /// The display name of this conflict type.
    pub fn name(&self) -> (r: &'static str)
        ensures
            r@ == conflict_type_label(*self),
    {
        match self {
            ConflictType::Classification => "Classification Conflicts",
            ConflictType::SpeakerOrganizer => "Speaker/Organizer Conflicts",
            ConflictType::PersonalClassification => "Personal-Classification Conflicts",
            ConflictType::SeriesSameRoom => "Series Same-Room Conflicts",
            ConflictType::SeriesBackToBack => "Series Back-to-Back Conflicts",
        }
    }
}

/// The number of conflicts of each type in a schedule.
#[derive(Debug, Clone, Copy)]
pub struct ConflictCounts {
    pub classification: i32,
    pub speaker_organizer: i32,
    pub personal_classification: i32,
    pub series_same_room: i32,
    pub series_back_to_back: i32,
}

impl Default for ConflictCounts {
    /// All counts zero.
    fn default() -> (c: Self)
        ensures
            c.classification == 0,
            c.speaker_organizer == 0,
            c.personal_classification == 0,
            c.series_same_room == 0,
            c.series_back_to_back == 0,
    {
        ConflictCounts {
            classification: 0,
            speaker_organizer: 0,
            personal_classification: 0,
            series_same_room: 0,
            series_back_to_back: 0,
        }
    }
}

/// The count that `c` holds for `t`.
pub open spec fn count_of(c: ConflictCounts, t: ConflictType) -> i32 {
    match t {
        ConflictType::Classification => c.classification,
        ConflictType::SpeakerOrganizer => c.speaker_organizer,
        ConflictType::PersonalClassification => c.personal_classification,
        ConflictType::SeriesSameRoom => c.series_same_room,
        ConflictType::SeriesBackToBack => c.series_back_to_back,
    }
}

/// The sum of the five counts.
pub open spec fn total_of(c: ConflictCounts) -> int {
    c.classification + c.speaker_organizer + c.personal_classification + c.series_same_room
        + c.series_back_to_back
}

impl ConflictCounts {
    /// The count of one conflict type.
    pub fn get(&self, conflict_type: ConflictType) -> (r: i32)
        ensures
            r == count_of(*self, conflict_type),
    {
        match conflict_type {
            ConflictType::Classification => self.classification,
            ConflictType::SpeakerOrganizer => self.speaker_organizer,
            ConflictType::PersonalClassification => self.personal_classification,
            ConflictType::SeriesSameRoom => self.series_same_room,
            ConflictType::SeriesBackToBack => self.series_back_to_back,
        }
    }

    /// Sets the count of one conflict type, leaving the others unchanged.
    pub fn set(&mut self, conflict_type: ConflictType, count: i32)
        ensures
            count_of(*final(self), conflict_type) == count,
            forall|t: ConflictType| t != conflict_type ==> count_of(*final(self), t) == count_of(
                *old(self),
                t,
            ),
    {
        match conflict_type {
            ConflictType::Classification => self.classification = count,
            ConflictType::SpeakerOrganizer => self.speaker_organizer = count,
            ConflictType::PersonalClassification => self.personal_classification = count,
            ConflictType::SeriesSameRoom => self.series_same_room = count,
            ConflictType::SeriesBackToBack => self.series_back_to_back = count,
        }
    }

    /// The sum of all five counts.
    pub fn total(&self) -> (r: i32)
        requires
            i32::MIN <= self.classification + self.speaker_organizer <= i32::MAX,
            i32::MIN <= self.classification + self.speaker_organizer + self.personal_classification
                <= i32::MAX,
            i32::MIN <= self.classification + self.speaker_organizer + self.personal_classification
                + self.series_same_room <= i32::MAX,
            i32::MIN <= total_of(*self) <= i32::MAX,
        ensures
            r == total_of(*self),
    {
        self.classification + self.speaker_organizer + self.personal_classification
            + self.series_same_room + self.series_back_to_back
    }
}

/// The weighted score of a set of counts: classification 10, speaker/organizer
/// 8, personal-classification 6, series room 4, series back-to-back 3.
pub open spec fn fitness_of(c: ConflictCounts) -> int {
    c.classification * 10 + c.speaker_organizer * 8 + c.personal_classification * 6
        + c.series_same_room * 4 + c.series_back_to_back * 3
}

/// A candidate schedule with its conflict counts and weighted score.
/// The score is a whole number for any counts, so it is held exactly.
#[derive(Debug, Clone)]
pub struct Solution {
    pub schedule: Schedule,
    pub conflicts: ConflictCounts,
    pub fitness_score: i64,
}

impl Solution {
    /// A solution whose score is computed from its counts.
    pub fn new(schedule: Schedule, conflicts: ConflictCounts) -> (s: Self)
        ensures
            s.schedule == schedule,
            s.conflicts == conflicts,
            s.fitness_score == fitness_of(conflicts),
    {
        let fitness_score = Self::calculate_fitness(&conflicts);
        Solution { schedule, conflicts, fitness_score }
    }

    /// The weighted score of `conflicts`.
    pub fn calculate_fitness(conflicts: &ConflictCounts) -> (r: i64)
        ensures
            r == fitness_of(*conflicts),
    {
        conflicts.classification as i64 * 10 + conflicts.speaker_organizer as i64 * 8
            + conflicts.personal_classification as i64 * 6 + conflicts.series_same_room as i64 * 4
            + conflicts.series_back_to_back as i64 * 3
    }

    /// Recomputes the score from the current counts.
    pub fn update_fitness(&mut self)
        ensures
            final(self).schedule == old(self).schedule,
            final(self).conflicts == old(self).conflicts,
            final(self).fitness_score == fitness_of(old(self).conflicts),
    {
        self.fitness_score = Self::calculate_fitness(&self.conflicts);
    }
}

} // verus!
