//! Game modes, results, editor tools and the texts and looks of the menus' buttons.
use vstd::prelude::*;

verus! {

/// Each level/map in the game.
#[derive(Clone, Copy, Debug, PartialEq, Eq, Structural)]
pub enum GameMode {
    Scenario1,
    DevPlayground,
}

/// How a game ended.
#[derive(Clone, Copy, Debug, PartialEq, Eq, Structural)]
pub enum GameResult {
    /// Scenario Completed
    Win,
    /// Player died
    LoseHealth,
    /// Player ran out of time
    LoseTime,
}

/// Tools of the scene editor.
#[derive(Clone, Copy, Debug, PartialEq, Eq, Structural)]
pub enum UsingTool {
    Select,
    Move,
    Rotate,
}

impl GameMode {
    /// Text of the main menu's button that enters this mode.
    pub fn menu_label(&self) -> (label: &'static str)
        ensures
            label@ == (match *self {
                GameMode::DevPlayground => "Dev Playground"@,
                GameMode::Scenario1 => "Main Scenario"@,
            }),
    {
        match self {
            GameMode::DevPlayground => "Dev Playground",
            GameMode::Scenario1 => "Main Scenario",
        }
    }
}

impl GameResult {
    /// Heading of the game-over screen.
    pub fn heading(&self) -> (text: &'static str)
        ensures
            text@ == (match *self {
                GameResult::LoseHealth => "GAME OVER"@,
                GameResult::LoseTime => "GAME OVER"@,
                GameResult::Win => "GREAT SUCCESS!"@,
            }),
    {
        match self {
            GameResult::LoseHealth => "GAME OVER",
            GameResult::LoseTime => "GAME OVER",
            GameResult::Win => "GREAT SUCCESS!",
        }
    }

    /// Message of the game-over screen.
    pub fn message(&self) -> (text: &'static str)
        ensures
            text@ == (match *self {
                GameResult::LoseHealth => "You died. :("@,
                GameResult::LoseTime => "You ran out of time. It's all over now..."@,
                GameResult::Win => "You really showed 'em how it's done! Good job!"@,
            }),
    {
        match self {
            GameResult::LoseHealth => "You died. :(",
            GameResult::LoseTime => "You ran out of time. It's all over now...",
            GameResult::Win => "You really showed 'em how it's done! Good job!",
        }
    }
}

impl UsingTool {
    /// Text of the editor's button for this tool.
    pub fn label(&self) -> (label: &'static str)
        ensures
            label@ == (match *self {
                UsingTool::Select => "Select"@,
                UsingTool::Move => "Move"@,
                UsingTool::Rotate => "Rotate"@,
            }),
    {
        match self {
            UsingTool::Select => "Select",
            UsingTool::Move => "Move",
            UsingTool::Rotate => "Rotate",
        }
    }

    /// All tools, in the order the editor lists them.
    pub fn all() -> (tools: Vec<UsingTool>)
        ensures
            tools@ == seq![UsingTool::Select, UsingTool::Move, UsingTool::Rotate],
    {
        let tools = vec![UsingTool::Select, UsingTool::Move, UsingTool::Rotate];
        proof {
            assert(tools@ =~= seq![UsingTool::Select, UsingTool::Move, UsingTool::Rotate]);
        }
        tools
    }
}

/// The game's end that the scenario timer decides: once it has finished, the
/// player ran out of time; before, the game goes on.
pub fn time_up_result(timer_finished: bool) -> (r: Option<GameResult>)
    ensures
        r == (if timer_finished { Some(GameResult::LoseTime) } else { None }),
{
    if timer_finished {
        Some(GameResult::LoseTime)
    } else {
        None
    }
}

/// Text of the game-over screen's button that replays the scenario.
pub fn replay_label() -> (label: &'static str)
    ensures
        label@ == "Replay Scenario"@,
{
    "Replay Scenario"
}

/// Text of the game-over screen's button that goes back to the menu.
pub fn goto_menu_label() -> (label: &'static str)
    ensures
        label@ == "Exit to Menu"@,
{
    "Exit to Menu"
}

/// Text of the main menu's button that quits.
pub fn exit_label() -> (label: &'static str)
    ensures
        label@ == "Exit Game"@,
{
    "Exit Game"
}

/// How a button is being interacted with.
#[derive(Clone, Copy, Debug, PartialEq, Eq, Structural)]
pub enum ButtonInteraction {
    Idle,
    Hovered,
    Clicked,
}

/// Colour of an editor tool button.
#[derive(Clone, Copy, Debug, PartialEq, Eq, Structural)]
pub enum ToolButtonLook {
    Active,
    Idle,
    Hover,
    Click,
}

/// Look of the button of `tool` while `using` is the editor's tool: the active
/// tool's button is marked active, the others follow the pointer.
pub fn tool_button_look(using: UsingTool, tool: UsingTool, interaction: ButtonInteraction) -> (look: ToolButtonLook)
    ensures
        look == (if using == tool {
            ToolButtonLook::Active
        } else {
            match interaction {
                ButtonInteraction::Idle => ToolButtonLook::Idle,
                ButtonInteraction::Hovered => ToolButtonLook::Hover,
                ButtonInteraction::Clicked => ToolButtonLook::Click,
            }
        }),
{
    if using == tool {
        return ToolButtonLook::Active;
    }
    match interaction {
        ButtonInteraction::Idle => ToolButtonLook::Idle,
        ButtonInteraction::Hovered => ToolButtonLook::Hover,
        ButtonInteraction::Clicked => ToolButtonLook::Click,
    }
}

/// Sounds of the menu buttons.
#[derive(Clone, Copy, Debug, PartialEq, Eq, Structural)]
pub enum ButtonSound {
    Hover,
    On,
    Off,
}

/// Sound a menu button plays when its interaction changes: leaving it plays the
/// hover sound, hovering it the "on" sound, clicking it the "off" sound.
pub fn button_sound(interaction: ButtonInteraction) -> (sound: ButtonSound)
    ensures
        sound == match interaction {
            ButtonInteraction::Idle => ButtonSound::Hover,
            ButtonInteraction::Hovered => ButtonSound::On,
            ButtonInteraction::Clicked => ButtonSound::Off,
        },
{
    match interaction {
        ButtonInteraction::Idle => ButtonSound::Hover,
        ButtonInteraction::Hovered => ButtonSound::On,
        ButtonInteraction::Clicked => ButtonSound::Off,
    }
}

} // verus!
