//! The application configuration and its builder: plain settings data that
//! a windowing front end consumes when it creates the application.

use vstd::prelude::*;

verus! {

/// Window and event-loop settings for an application front end.
pub struct AppConfig {
    /// The window title.
    pub title: String,
    /// The window size in pixels.
    pub size: (u32, u32),
    /// Whether vertical sync is on.
    pub vsync: bool,
    /// Whether the application runs without a window.
    pub headless: bool,
    /// Whether the window starts fullscreen.
    pub fullscreen: bool,
    /// Whether the window can be resized.
    pub resizable: bool,
    /// Whether the mouse cursor is shown.
    pub show_cursor: bool,
    /// Whether closing the window raises an event instead of quitting.
    pub intercept_close_request: bool,
}

impl AppConfig {
    /// A configuration with the given title and size: vsync on, windowed,
    /// not fullscreen, resizable, cursor shown, close requests not
    /// intercepted.
    pub fn new(title: &str, size: (u32, u32)) -> (r: Self)
        ensures
            r.title@ == title@,
            r.size == size,
            r.vsync,
            !r.headless,
            !r.fullscreen,
            r.resizable,
            r.show_cursor,
            !r.intercept_close_request,
    {
        AppConfig {
            title: title.to_owned(),
            size,
            vsync: true,
            headless: false,
            fullscreen: false,
            resizable: true,
            show_cursor: true,
            intercept_close_request: false,
        }
    }
}

/// Collects the settings an application runner is built from: the window
/// configuration, the fonts and images to load on startup, and the frame
/// rate goal.
pub struct AppBuilder {
    /// The window configuration.
    pub config: AppConfig,
    /// The font paths to load on startup.
    pub fonts: Vec<String>,
    /// The image paths to load on startup.
    pub images: Vec<String>,
    /// The frame rate goal of the application.
    pub fps_goal: u32,
}

impl AppBuilder {
    /// Starts building an application with the given screen width and
    /// height in pixels: 60 frames per second, nothing to load, and the
    /// default window configuration.
    pub fn new(width: u32, height: u32) -> (r: Self)
        ensures
            r.config.size == (width, height),
            r.config.vsync,
            !r.config.headless,
            !r.config.fullscreen,
            r.config.resizable,
            r.config.show_cursor,
            !r.config.intercept_close_request,
            r.fonts@.len() == 0,
            r.images@.len() == 0,
            r.fps_goal == 60,
    {
        let config = AppConfig::new("application", (width, height));
        AppBuilder { config, fonts: Vec::new(), images: Vec::new(), fps_goal: 60 }
    }

    /// Sets the window title.
    pub fn title(self, title: &str) -> (r: Self)
        ensures
            r.config.title@ == title@,
            r.config.size == self.config.size,
            r.config.vsync == self.config.vsync,
            r.config.headless == self.config.headless,
            r.config.fullscreen == self.config.fullscreen,
            r.config.resizable == self.config.resizable,
            r.config.show_cursor == self.config.show_cursor,
            r.config.intercept_close_request == self.config.intercept_close_request,
            r.fonts == self.fonts,
            r.images == self.images,
            r.fps_goal == self.fps_goal,
    {
        let config = AppConfig { title: title.to_owned(), ..self.config };
        AppBuilder { config, ..self }
    }

    /// Turns vertical sync on or off.
    pub fn vsync(self, val: bool) -> (r: Self)
        ensures
            r == (AppBuilder { config: AppConfig { vsync: val, ..self.config }, ..self }),
    {
        AppBuilder { config: AppConfig { vsync: val, ..self.config }, ..self }
    }

    /// Makes the application run headless.
    pub fn headless(self, val: bool) -> (r: Self)
        ensures
            r == (AppBuilder { config: AppConfig { headless: val, ..self.config }, ..self }),
    {
        AppBuilder { config: AppConfig { headless: val, ..self.config }, ..self }
    }

    /// Makes the window start fullscreen.
    pub fn fullscreen(self, val: bool) -> (r: Self)
        ensures
            r == (AppBuilder { config: AppConfig { fullscreen: val, ..self.config }, ..self }),
    {
        AppBuilder { config: AppConfig { fullscreen: val, ..self.config }, ..self }
    }

    /// Makes the window resizable.
    pub fn resizable(self, val: bool) -> (r: Self)
        ensures
            r == (AppBuilder { config: AppConfig { resizable: val, ..self.config }, ..self }),
    {
        AppBuilder { config: AppConfig { resizable: val, ..self.config }, ..self }
    }

    /// Shows or hides the mouse cursor.
    pub fn show_cursor(self, val: bool) -> (r: Self)
        ensures
            r == (AppBuilder { config: AppConfig { show_cursor: val, ..self.config }, ..self }),
    {
        AppBuilder { config: AppConfig { show_cursor: val, ..self.config }, ..self }
    }

    /// If on, clicking the close button raises an event the application can
    /// handle instead of quitting.
    pub fn intercept_close_request(self, val: bool) -> (r: Self)
        ensures
            r == (AppBuilder {
                config: AppConfig { intercept_close_request: val, ..self.config },
                ..self
            }),
    {
        AppBuilder { config: AppConfig { intercept_close_request: val, ..self.config }, ..self }
    }

    /// Queues a font to load on startup.
    pub fn font(self, font_path: &str) -> (r: Self)
        ensures
            r.fonts@.len() == self.fonts@.len() + 1,
            forall|k: int| 0 <= k < self.fonts@.len() ==> r.fonts@[k] == self.fonts@[k],
            r.fonts@.last()@ == font_path@,
            r.config == self.config,
            r.images == self.images,
            r.fps_goal == self.fps_goal,
    {
        let mut fonts = self.fonts;
        fonts.push(font_path.to_owned());
        AppBuilder { fonts, ..self }
    }

    /// Queues an image to load on startup.
    pub fn image(self, image_path: &str) -> (r: Self)
        ensures
            r.images@.len() == self.images@.len() + 1,
            forall|k: int| 0 <= k < self.images@.len() ==> r.images@[k] == self.images@[k],
            r.images@.last()@ == image_path@,
            r.config == self.config,
            r.fonts == self.fonts,
            r.fps_goal == self.fps_goal,
    {
        let mut images = self.images;
        images.push(image_path.to_owned());
        AppBuilder { images, ..self }
    }

    /// Sets the frame rate goal.
    pub fn fps(self, fps_goal: u32) -> (r: Self)
        ensures
            r == (AppBuilder { fps_goal, ..self }),
    {
        AppBuilder { fps_goal, ..self }
    }
}

} // verus!
