//! The plugin groups the game is built from, as the lists of plugins each
//! adds, in order.
use vstd::prelude::*;

verus! {

/// A plugin of the game itself.
#[derive(Clone, Copy, Debug, PartialEq, Eq, Structural)]
pub enum GamePlugin {
    /// The global state manager.
    State,
    /// Input management.
    Input,
    /// The global player manager.
    PlayerManager,
    /// The global world manager.
    WorldManager,
    /// Task management.
    Task,
    /// The debug inspector.
    Inspector,
    /// The debugging sandbox.
    Sandbox,
    /// Logging of state changes.
    StateLog,
}

/// Plugin group for the game's core plugins.
#[derive(Clone, Copy, Debug, PartialEq, Eq, Structural)]
pub struct CorePlugins;

impl CorePlugins {
    /// The plugins of the group, in the order they are added.
    pub fn build(self) -> (plugins: Vec<GamePlugin>)
        ensures
            plugins@ == seq![
                GamePlugin::State,
                GamePlugin::Input,
                GamePlugin::PlayerManager,
                GamePlugin::WorldManager,
                GamePlugin::Task,
            ],
    {
        let plugins = vec![
            GamePlugin::State,
            GamePlugin::Input,
            GamePlugin::PlayerManager,
            GamePlugin::WorldManager,
            GamePlugin::Task,
        ];
        assert(plugins@ =~= seq![
            GamePlugin::State,
            GamePlugin::Input,
            GamePlugin::PlayerManager,
            GamePlugin::WorldManager,
            GamePlugin::Task,
        ]);
        plugins
    }
}

/// Plugin group for drafts of the game's core plugins.
#[derive(Clone, Copy, Debug, PartialEq, Eq, Structural)]
pub struct DraftPlugins;

impl DraftPlugins {
    /// The plugins of the group: none yet.
    pub fn build(self) -> (plugins: Vec<GamePlugin>)
        ensures
            plugins@ == Seq::<GamePlugin>::empty(),
    {
        Vec::new()
    }
}

/// Plugins for debugging the game.
#[derive(Clone, Copy, Debug, PartialEq, Eq, Structural)]
pub struct DebugPlugins;

impl DebugPlugins {
    /// The plugins of the group, in the order they are added.
    pub fn build(self) -> (plugins: Vec<GamePlugin>)
        ensures
            plugins@ == seq![GamePlugin::Inspector, GamePlugin::Sandbox, GamePlugin::StateLog],
    {
        let plugins = vec![GamePlugin::Inspector, GamePlugin::Sandbox, GamePlugin::StateLog];
        assert(plugins@ =~= seq![GamePlugin::Inspector, GamePlugin::Sandbox, GamePlugin::StateLog]);
        plugins
    }
}

/// A plugin of the engine.
#[derive(Clone, Copy, Debug, PartialEq, Eq, Structural)]
pub enum EnginePlugin {
    Log,
    TaskPool,
    FrameCount,
    Time,
    Transform,
    Input,
    Window,
    Accessibility,
    TerminalCtrlCHandler,
    Asset,
    Scene,
    Winit,
    Render,
    Image,
    Mesh,
    Camera,
    Light,
    PipelinedRendering,
    CorePipeline,
    PostProcess,
    AntiAlias,
    Sprite,
    SpriteRender,
    Text,
    Ui,
    UiRender,
    Pbr,
    Gltf,
    Audio,
    Gilrs,
    Animation,
    Gizmo,
    GizmoRender,
    States,
    DefaultPicking,
}

/// The engine plugins the game runs with, in order: the engine's default
/// plugins, with the terminal Ctrl-C handler where the platform has one and
/// pipelined rendering where the platform supports it.
pub open spec fn engine_plugins(terminal_ctrl_c: bool, pipelined_rendering: bool) -> Seq<EnginePlugin> {
    seq![
        EnginePlugin::Log,
        EnginePlugin::TaskPool,
        EnginePlugin::FrameCount,
        EnginePlugin::Time,
        EnginePlugin::Transform,
        EnginePlugin::Input,
        EnginePlugin::Window,
        EnginePlugin::Accessibility,
    ] + (if terminal_ctrl_c { seq![EnginePlugin::TerminalCtrlCHandler] } else { Seq::empty() })
        + seq![
        EnginePlugin::Asset,
        EnginePlugin::Scene,
        EnginePlugin::Winit,
        EnginePlugin::Render,
        EnginePlugin::Image,
        EnginePlugin::Mesh,
        EnginePlugin::Camera,
        EnginePlugin::Light,
    ] + (if pipelined_rendering { seq![EnginePlugin::PipelinedRendering] } else { Seq::empty() })
        + seq![
        EnginePlugin::CorePipeline,
        EnginePlugin::PostProcess,
        EnginePlugin::AntiAlias,
        EnginePlugin::Sprite,
        EnginePlugin::SpriteRender,
        EnginePlugin::Text,
        EnginePlugin::Ui,
        EnginePlugin::UiRender,
        EnginePlugin::Pbr,
        EnginePlugin::Gltf,
        EnginePlugin::Audio,
        EnginePlugin::Gilrs,
        EnginePlugin::Animation,
        EnginePlugin::Gizmo,
        EnginePlugin::GizmoRender,
        EnginePlugin::States,
        EnginePlugin::DefaultPicking,
    ]
}

/// The engine's default plugins, with some additional configuration.
#[derive(Clone, Copy, Debug, PartialEq, Eq, Structural)]
pub struct BevyPlugins;

impl BevyPlugins {
    /// The plugins of the group, in order, on a platform with or without a
    /// terminal Ctrl-C handler and pipelined rendering.
    pub fn build(self, terminal_ctrl_c: bool, pipelined_rendering: bool) -> (plugins: Vec<EnginePlugin>)
        ensures
            plugins@ == engine_plugins(terminal_ctrl_c, pipelined_rendering),
    {
        let mut plugins = vec![
            EnginePlugin::Log,
            EnginePlugin::TaskPool,
            EnginePlugin::FrameCount,
            EnginePlugin::Time,
            EnginePlugin::Transform,
            EnginePlugin::Input,
            EnginePlugin::Window,
            EnginePlugin::Accessibility,
        ];
        if terminal_ctrl_c {
            plugins.push(EnginePlugin::TerminalCtrlCHandler);
        }
        let mut middle = vec![
            EnginePlugin::Asset,
            EnginePlugin::Scene,
            EnginePlugin::Winit,
            EnginePlugin::Render,
            EnginePlugin::Image,
            EnginePlugin::Mesh,
            EnginePlugin::Camera,
            EnginePlugin::Light,
        ];
        plugins.append(&mut middle);
        if pipelined_rendering {
            plugins.push(EnginePlugin::PipelinedRendering);
        }
        let mut rest = vec![
            EnginePlugin::CorePipeline,
            EnginePlugin::PostProcess,
            EnginePlugin::AntiAlias,
            EnginePlugin::Sprite,
            EnginePlugin::SpriteRender,
            EnginePlugin::Text,
            EnginePlugin::Ui,
            EnginePlugin::UiRender,
            EnginePlugin::Pbr,
            EnginePlugin::Gltf,
            EnginePlugin::Audio,
            EnginePlugin::Gilrs,
            EnginePlugin::Animation,
            EnginePlugin::Gizmo,
            EnginePlugin::GizmoRender,
            EnginePlugin::States,
            EnginePlugin::DefaultPicking,
        ];
        plugins.append(&mut rest);
        assert(plugins@ =~= engine_plugins(terminal_ctrl_c, pipelined_rendering));
        plugins
    }
}

} // verus!
