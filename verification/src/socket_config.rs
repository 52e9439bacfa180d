//! What the unit file of a socket says, as far as the socket unit reads it.
use crate::fstab::{fields_of, split_fields, views_of};
use vstd::prelude::*;
use vstd::string::*;

verus! {

/// The points in the life of a socket at which commands are run.
#[derive(Clone, Copy, Debug, PartialEq, Eq, Structural)]
pub enum SocketCommand {
    StartPre,
    StartChown,
    StartPost,
    StopPre,
    StopPost,
}

/// A command line: the program and its arguments.
pub struct ExecCommand {
    pub path: String,
    pub argv: Vec<String>,
}

/// What a command line says.
pub struct ExecCommandView {
    pub path: Seq<char>,
    pub argv: Seq<Seq<char>>,
}

/// What the strings say, each as its characters.
pub open spec fn strings_view(strs: Seq<String>) -> Seq<Seq<char>> {
    strs.map_values(|s: String| s@)
}

impl View for ExecCommand {
    type V = ExecCommandView;

    open spec fn view(&self) -> ExecCommandView {
        ExecCommandView { path: self.path@, argv: strings_view(self.argv@) }
    }
}

/// What the command lines say.
pub open spec fn commands_view(cmds: Seq<ExecCommand>) -> Seq<ExecCommandView> {
    cmds.map_values(|c: ExecCommand| c@)
}

/// What command lines say where there may be none.
pub open spec fn commands_option_view(cmds: Option<Vec<ExecCommand>>) -> Option<
    Seq<ExecCommandView>,
> {
    match cmds {
        Some(list) => Some(commands_view(list@)),
        None => None,
    }
}

fn copy_strings(strs: &Vec<String>) -> (copy: Vec<String>)
    ensures
        strings_view(copy@) == strings_view(strs@),
{
    let mut copy: Vec<String> = Vec::new();
    let mut i: usize = 0;
    while i < strs.len()
        invariant
            i <= strs.len(),
            copy@.len() == i,
            forall|k: int| 0 <= k < i ==> (#[trigger] copy@[k])@ == strs@[k]@,
        decreases strs.len() - i,
    {
        copy.push(strs[i].clone());
        i = i + 1;
    }
    proof {
        assert(strings_view(copy@) =~= strings_view(strs@));
    }
    copy
}

impl ExecCommand {
    pub fn new(path: String, argv: Vec<String>) -> (cmd: ExecCommand)
        ensures
            cmd@ == (ExecCommandView { path: path@, argv: strings_view(argv@) }),
    {
        ExecCommand { path, argv }
    }

    /// A command line that says the same.
    pub fn copy(&self) -> (cmd: ExecCommand)
        ensures
            cmd@ == self@,
    {
        ExecCommand { path: self.path.clone(), argv: copy_strings(&self.argv) }
    }
}

/// The command line that `line` writes: the program is the first of its fields, and
/// the arguments are the others. A line without fields writes none.
pub open spec fn exec_command_spec(line: Seq<char>) -> Option<ExecCommandView> {
    let fields = fields_of(line);
    if fields.len() == 0 {
        None
    } else {
        Some(ExecCommandView { path: fields[0], argv: fields.skip(1) })
    }
}

/// The command line that `line` writes, if it writes one.
pub fn exec_command_of(line: &str) -> (cmd: Option<ExecCommand>)
    ensures
        match cmd {
            Some(c) => Some(c@) == exec_command_spec(line@),
            None => exec_command_spec(line@).is_none(),
        },
{
    let fields = split_fields(line);
    if fields.len() == 0 {
        return None;
    }
    proof {
        assert(views_of(fields@)[0] == fields@[0]@);
    }
    let path = String::from_str(fields[0]);
    let mut argv: Vec<String> = Vec::new();
    let mut i: usize = 1;
    while i < fields.len()
        invariant
            1 <= i <= fields.len(),
            argv@.len() == i - 1,
            forall|k: int| 0 <= k < i - 1 ==> (#[trigger] argv@[k])@ == fields@[k + 1]@,
        decreases fields.len() - i,
    {
        argv.push(String::from_str(fields[i]));
        i = i + 1;
    }
    proof {
        assert(strings_view(argv@) =~= views_of(fields@).skip(1));
    }
    Some(ExecCommand { path, argv })
}

fn copy_commands(cmds: &Option<Vec<ExecCommand>>) -> (copy: Option<Vec<ExecCommand>>)
    ensures
        commands_option_view(copy) == commands_option_view(*cmds),
{
    match cmds {
        None => None,
        Some(list) => {
            let mut copy: Vec<ExecCommand> = Vec::new();
            let mut i: usize = 0;
            while i < list.len()
                invariant
                    i <= list.len(),
                    copy@.len() == i,
                    forall|k: int| 0 <= k < i ==> (#[trigger] copy@[k])@ == list@[k]@,
                decreases list.len() - i,
            {
                copy.push(list[i].copy());
                i = i + 1;
            }
            proof {
                assert(commands_view(copy@) =~= commands_view(list@));
            }
            Some(copy)
        },
    }
}

/// The section of the unit file that is about the socket itself.
#[allow(non_snake_case)]
pub struct SectionSocket {
    pub ExecStartPre: Option<Vec<ExecCommand>>,
    pub ExecStartChown: Option<Vec<ExecCommand>>,
    pub ExecStartPost: Option<Vec<ExecCommand>>,
    pub ExecStopPre: Option<Vec<ExecCommand>>,
    pub ExecStopPost: Option<Vec<ExecCommand>>,
    pub ListenStream: Option<String>,
    pub ListenDatagram: Option<String>,
    pub ListenNetlink: Option<String>,
    pub PassPacketInfo: Option<bool>,
    pub Accept: Option<bool>,
    pub Service: Option<String>,
    pub ReceiveBuffer: Option<u64>,
    pub SendBuffer: Option<u64>,
    pub PassCredentials: Option<bool>,
    pub Symlinks: Option<Vec<String>>,
    pub PassSecurity: Option<bool>,
    pub SocketMode: Option<u32>,
}

/// The unit file of a socket.
#[allow(non_snake_case)]
pub struct SocketConfigData {
    pub Socket: SectionSocket,
}

impl SocketConfigData {
    /// The unit file in which nothing is set.
    pub fn empty() -> (data: SocketConfigData)
        ensures
            forall|cmd_type: SocketCommand| data.exec_cmds(cmd_type).is_none(),
            data.Socket.ListenStream.is_none(),
            data.Socket.ListenDatagram.is_none(),
            data.Socket.ListenNetlink.is_none(),
            data.Socket.PassPacketInfo.is_none(),
            data.Socket.Accept.is_none(),
            data.Socket.Service.is_none(),
            data.Socket.ReceiveBuffer.is_none(),
            data.Socket.SendBuffer.is_none(),
            data.Socket.PassCredentials.is_none(),
            data.Socket.Symlinks.is_none(),
            data.Socket.PassSecurity.is_none(),
            data.Socket.SocketMode.is_none(),
    {
        SocketConfigData {
            Socket: SectionSocket {
                ExecStartPre: None,
                ExecStartChown: None,
                ExecStartPost: None,
                ExecStopPre: None,
                ExecStopPost: None,
                ListenStream: None,
                ListenDatagram: None,
                ListenNetlink: None,
                PassPacketInfo: None,
                Accept: None,
                Service: None,
                ReceiveBuffer: None,
                SendBuffer: None,
                PassCredentials: None,
                Symlinks: None,
                PassSecurity: None,
                SocketMode: None,
            },
        }
    }

    /// The command lines that the unit file sets for the point `cmd_type`.
    pub open spec fn exec_cmds(&self, cmd_type: SocketCommand) -> Option<Seq<ExecCommandView>> {
        match cmd_type {
            SocketCommand::StartPre => commands_option_view(self.Socket.ExecStartPre),
            SocketCommand::StartChown => commands_option_view(self.Socket.ExecStartChown),
            SocketCommand::StartPost => commands_option_view(self.Socket.ExecStartPost),
            SocketCommand::StopPre => commands_option_view(self.Socket.ExecStopPre),
            SocketCommand::StopPost => commands_option_view(self.Socket.ExecStopPost),
        }
    }

    /// A copy of the command lines that the unit file sets for the point `cmd_type`.
    pub fn get_exec_cmds(&self, cmd_type: SocketCommand) -> (cmds: Option<Vec<ExecCommand>>)
        ensures
            commands_option_view(cmds) == self.exec_cmds(cmd_type),
    {
        match cmd_type {
            SocketCommand::StartPre => copy_commands(&self.Socket.ExecStartPre),
            SocketCommand::StartChown => copy_commands(&self.Socket.ExecStartChown),
            SocketCommand::StartPost => copy_commands(&self.Socket.ExecStartPost),
            SocketCommand::StopPre => copy_commands(&self.Socket.ExecStopPre),
            SocketCommand::StopPost => copy_commands(&self.Socket.ExecStopPost),
        }
    }
}

/// The configuration of a socket unit: the unit file as it was last loaded.
pub struct SocketConfig {
    pub data: SocketConfigData,
}

impl SocketConfig {
    /// The configuration before any file was loaded: nothing is set.
    pub fn new() -> (config: SocketConfig)
        ensures
            forall|cmd_type: SocketCommand| config.data.exec_cmds(cmd_type).is_none(),
            config.data.Socket.Accept.is_none(),
    {
        SocketConfig { data: SocketConfigData::empty() }
    }

    /// Puts what was loaded in the place of what was there.
    pub fn set(&mut self, data: SocketConfigData)
        ensures
            final(self).data == data,
    {
        self.data = data;
    }

    pub fn config_data(&self) -> (data: &SocketConfigData)
        ensures
            *data == self.data,
    {
        &self.data
    }

    /// A copy of the command lines that are set for the point `cmd_type`.
    pub fn get_exec_cmds(&self, cmd_type: SocketCommand) -> (cmds: Option<Vec<ExecCommand>>)
        ensures
            commands_option_view(cmds) == self.data.exec_cmds(cmd_type),
    {
        self.data.get_exec_cmds(cmd_type)
    }
}

} // verus!
