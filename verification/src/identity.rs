//! Teams, job descriptions and the agents that combine them, with their runes.
use vstd::prelude::*;
use crate::script::push_rune;

verus! {

#[derive(Clone, Copy, PartialEq, Eq, Debug, Hash, Structural)]
pub enum Team {
    Orange,
    Blue,
}

impl Team {
    pub open spec fn spec_opposition(self) -> Team {
        match self {
            Team::Orange => Team::Blue,
            Team::Blue => Team::Orange,
        }
    }

    /// Both teams, Orange first.
    pub fn league() -> (teams: Vec<Self>)
        ensures
            teams@ == seq![Team::Orange, Team::Blue],
    {
        let teams = vec![Team::Orange, Team::Blue];
        assert(teams@ =~= seq![Team::Orange, Team::Blue]);
        teams
    }

    pub fn opposition(&self) -> (other: Self)
        ensures
            other == self.spec_opposition(),
    {
        match *self {
            Team::Orange => Team::Blue,
            Team::Blue => Team::Orange,
        }
    }
}

/// The opposition of the opposition is the team itself, and never the team.
pub proof fn law_opposition_involutive(team: Team)
    ensures
        team.spec_opposition().spec_opposition() == team,
        team.spec_opposition() != team,
{
}

#[derive(Clone, Copy, PartialEq, Eq, Debug, Hash, Structural)]
pub enum JobDescription {
    Servant,
    Pony,
    Scholar,
    Cop,
    Princess,
    Figurehead,
}

/// The six job descriptions, in the order in which agents are listed.
pub open spec fn job_order() -> Seq<JobDescription> {
    seq![
        JobDescription::Servant,
        JobDescription::Pony,
        JobDescription::Scholar,
        JobDescription::Cop,
        JobDescription::Princess,
        JobDescription::Figurehead,
    ]
}

#[derive(Clone, Copy, PartialEq, Eq, Debug, Hash, Structural)]
pub struct Agent {
    pub team: Team,
    pub job_description: JobDescription,
}

/// The rune of an Orange agent; Blue runes are the same letters in lowercase.
pub open spec fn orange_rune(job: JobDescription) -> char {
    match job {
        JobDescription::Servant => 'P',
        JobDescription::Pony => 'N',
        JobDescription::Scholar => 'B',
        JobDescription::Cop => 'R',
        JobDescription::Princess => 'Q',
        JobDescription::Figurehead => 'K',
    }
}

pub open spec fn blue_rune(job: JobDescription) -> char {
    match job {
        JobDescription::Servant => 'p',
        JobDescription::Pony => 'n',
        JobDescription::Scholar => 'b',
        JobDescription::Cop => 'r',
        JobDescription::Princess => 'q',
        JobDescription::Figurehead => 'k',
    }
}

/// The figurine runes; the Blue ones are the solid ones.
pub open spec fn orange_figurine(job: JobDescription) -> char {
    match job {
        JobDescription::Servant => '♙',
        JobDescription::Pony => '♘',
        JobDescription::Scholar => '♗',
        JobDescription::Cop => '♖',
        JobDescription::Princess => '♕',
        JobDescription::Figurehead => '♔',
    }
}

pub open spec fn blue_figurine(job: JobDescription) -> char {
    match job {
        JobDescription::Servant => '♟',
        JobDescription::Pony => '♞',
        JobDescription::Scholar => '♝',
        JobDescription::Cop => '♜',
        JobDescription::Princess => '♛',
        JobDescription::Figurehead => '♚',
    }
}

/// The agent that a preservation rune or a figurine rune names, if any.
pub open spec fn agent_of_rune(rune: char) -> Option<Agent> {
    if rune == 'P' || rune == '♙' {
        Some(Agent { team: Team::Orange, job_description: JobDescription::Servant })
    } else if rune == 'N' || rune == '♘' {
        Some(Agent { team: Team::Orange, job_description: JobDescription::Pony })
    } else if rune == 'B' || rune == '♗' {
        Some(Agent { team: Team::Orange, job_description: JobDescription::Scholar })
    } else if rune == 'R' || rune == '♖' {
        Some(Agent { team: Team::Orange, job_description: JobDescription::Cop })
    } else if rune == 'Q' || rune == '♕' {
        Some(Agent { team: Team::Orange, job_description: JobDescription::Princess })
    } else if rune == 'K' || rune == '♔' {
        Some(Agent { team: Team::Orange, job_description: JobDescription::Figurehead })
    } else if rune == 'p' || rune == '♟' {
        Some(Agent { team: Team::Blue, job_description: JobDescription::Servant })
    } else if rune == 'n' || rune == '♞' {
        Some(Agent { team: Team::Blue, job_description: JobDescription::Pony })
    } else if rune == 'b' || rune == '♝' {
        Some(Agent { team: Team::Blue, job_description: JobDescription::Scholar })
    } else if rune == 'r' || rune == '♜' {
        Some(Agent { team: Team::Blue, job_description: JobDescription::Cop })
    } else if rune == 'q' || rune == '♛' {
        Some(Agent { team: Team::Blue, job_description: JobDescription::Princess })
    } else if rune == 'k' || rune == '♚' {
        Some(Agent { team: Team::Blue, job_description: JobDescription::Figurehead })
    } else {
        None
    }
}

impl Agent {
    pub open spec fn preservation_rune(self) -> char {
        match self.team {
            Team::Orange => orange_rune(self.job_description),
            Team::Blue => blue_rune(self.job_description),
        }
    }

    pub open spec fn figurine_rune(self) -> char {
        match self.team {
            Team::Orange => orange_figurine(self.job_description),
            Team::Blue => blue_figurine(self.job_description),
        }
    }

    /// The prefix of this agent in pagan movement runes: nothing for a
    /// servant, else the Orange preservation rune of the job description.
    pub open spec fn pagan_prefix(self) -> Seq<char> {
        if self.job_description == JobDescription::Servant {
            Seq::empty()
        } else {
            seq![orange_rune(self.job_description)]
        }
    }

    /// The six agents of a team, in job order.
    pub open spec fn spec_personae(team: Team) -> Seq<Agent> {
        job_order().map_values(|job: JobDescription| Agent { team, job_description: job })
    }

    pub fn new(team: Team, job_description: JobDescription) -> (agent: Self)
        ensures
            agent == (Agent { team, job_description }),
    {
        Self { team, job_description }
    }

    /// The six agents of `team`: servant, pony, scholar, cop, princess, figurehead.
    pub fn dramatis_personae(team: Team) -> (agents: [Agent; 6])
        ensures
            agents@ == Self::spec_personae(team),
    {
        let agents = [
            Agent::new(team, JobDescription::Servant),
            Agent::new(team, JobDescription::Pony),
            Agent::new(team, JobDescription::Scholar),
            Agent::new(team, JobDescription::Cop),
            Agent::new(team, JobDescription::Princess),
            Agent::new(team, JobDescription::Figurehead),
        ];
        assert(agents@ =~= Self::spec_personae(team));
        agents
    }

    pub fn to_preservation_rune(&self) -> (rune: char)
        ensures
            rune == self.preservation_rune(),
    {
        match (self.team, self.job_description) {
            (Team::Orange, JobDescription::Servant) => 'P',
            (Team::Orange, JobDescription::Pony) => 'N',
            (Team::Orange, JobDescription::Scholar) => 'B',
            (Team::Orange, JobDescription::Cop) => 'R',
            (Team::Orange, JobDescription::Princess) => 'Q',
            (Team::Orange, JobDescription::Figurehead) => 'K',
            (Team::Blue, JobDescription::Servant) => 'p',
            (Team::Blue, JobDescription::Pony) => 'n',
            (Team::Blue, JobDescription::Scholar) => 'b',
            (Team::Blue, JobDescription::Cop) => 'r',
            (Team::Blue, JobDescription::Princess) => 'q',
            (Team::Blue, JobDescription::Figurehead) => 'k',
        }
    }

    pub fn to_pagan_movement_rune_prefix(&self) -> (prefix: String)
        ensures
            prefix@ == self.pagan_prefix(),
    {
        let mut prefix = String::new();
        match self.job_description {
            JobDescription::Servant => {},
            _ => {
                push_rune(
                    &mut prefix,
                    Agent::new(Team::Orange, self.job_description).to_preservation_rune(),
                );
            },
        }
        assert(prefix@ =~= self.pagan_prefix());
        prefix
    }

    pub fn to_figurine_display_rune(&self) -> (rune: char)
        ensures
            rune == self.figurine_rune(),
    {
        match (self.team, self.job_description) {
            (Team::Orange, JobDescription::Servant) => '♙',
            (Team::Orange, JobDescription::Pony) => '♘',
            (Team::Orange, JobDescription::Scholar) => '♗',
            (Team::Orange, JobDescription::Cop) => '♖',
            (Team::Orange, JobDescription::Princess) => '♕',
            (Team::Orange, JobDescription::Figurehead) => '♔',
            (Team::Blue, JobDescription::Servant) => '♟',
            (Team::Blue, JobDescription::Pony) => '♞',
            (Team::Blue, JobDescription::Scholar) => '♝',
            (Team::Blue, JobDescription::Cop) => '♜',
            (Team::Blue, JobDescription::Princess) => '♛',
            (Team::Blue, JobDescription::Figurehead) => '♚',
        }
    }

    pub fn to_solid_display_rune(&self) -> (rune: char)
        ensures
            rune == blue_figurine(self.job_description),
    {
        Agent::new(Team::Blue, self.job_description).to_figurine_display_rune()
    }

    /// The agent named by a preservation rune or a figurine rune; `None`
    /// for any other rune.
    pub fn from_rune(rune: char) -> (agent: Option<Agent>)
        ensures
            agent == agent_of_rune(rune),
    {
        if rune == 'P' || rune == '♙' {
            Some(Agent::new(Team::Orange, JobDescription::Servant))
        } else if rune == 'N' || rune == '♘' {
            Some(Agent::new(Team::Orange, JobDescription::Pony))
        } else if rune == 'B' || rune == '♗' {
            Some(Agent::new(Team::Orange, JobDescription::Scholar))
        } else if rune == 'R' || rune == '♖' {
            Some(Agent::new(Team::Orange, JobDescription::Cop))
        } else if rune == 'Q' || rune == '♕' {
            Some(Agent::new(Team::Orange, JobDescription::Princess))
        } else if rune == 'K' || rune == '♔' {
            Some(Agent::new(Team::Orange, JobDescription::Figurehead))
        } else if rune == 'p' || rune == '♟' {
            Some(Agent::new(Team::Blue, JobDescription::Servant))
        } else if rune == 'n' || rune == '♞' {
            Some(Agent::new(Team::Blue, JobDescription::Pony))
        } else if rune == 'b' || rune == '♝' {
            Some(Agent::new(Team::Blue, JobDescription::Scholar))
        } else if rune == 'r' || rune == '♜' {
            Some(Agent::new(Team::Blue, JobDescription::Cop))
        } else if rune == 'q' || rune == '♛' {
            Some(Agent::new(Team::Blue, JobDescription::Princess))
        } else if rune == 'k' || rune == '♚' {
            Some(Agent::new(Team::Blue, JobDescription::Figurehead))
        } else {
            None
        }
    }
}

/// Reading the preservation rune of an agent, or its figurine rune, gives the agent back.
pub proof fn law_rune_round_trip(agent: Agent)
    ensures
        agent_of_rune(agent.preservation_rune()) == Some(agent),
        agent_of_rune(agent.figurine_rune()) == Some(agent),
{
}

/// Distinct agents have distinct preservation runes.
pub proof fn law_preservation_runes_distinct(a: Agent, b: Agent)
    requires
        a != b,
    ensures
        a.preservation_rune() != b.preservation_rune(),
{
    law_rune_round_trip(a);
    law_rune_round_trip(b);
}

} // verus!
